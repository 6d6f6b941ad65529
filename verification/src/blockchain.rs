//! The chain engine: the block graph, the voting and leader-election
//! procedure, and the ledger-ordering algorithm, with the state invariants
//! that hold after every insertion.

use vstd::prelude::*;
use crate::block::{Block, Content};
use crate::config::{
    proposer_genesis_spec, proposer_genesis_hash, voter_genesis_spec, voter_genesis_hash,
    initial_difficulty, DIFFICULTY_CHANGE_INTERVAL,
};
use crate::difficulty::retarget_difficulty;
use crate::hash::H256;
use crate::sort::{sort_by_level, spec_sort_by_level, lemma_sort_by_level_elems};
use crate::table::{HMap, HVecMap, LMap, LVecMap, HSet, USet, clone_items};
use crate::votes::{vote_step, vote_apply};

verus! {

/// The chain engine's state. Every table of the graph store is a map with
/// unique keys; the remaining fields are the derived tips and sets that
/// the store's contents determine.
pub struct BlockChain {
    proposer_node_level: HMap<u64>,
    voter_node_level: HMap<u64>,
    voter_node_chain: HMap<u16>,
    voter_node_voted_level: HMap<u64>,
    proposer_tree_level: LVecMap<H256>,
    proposer_node_vote: HVecMap<(u16, u64)>,
    proposer_leader_sequence: LMap<H256>,
    proposer_ledger_order: LVecMap<H256>,
    proposer_block_timestamp: HMap<u64>,
    mining_difficulty: HMap<H256>,
    parent_neighbor: HMap<H256>,
    vote_neighbor: HVecMap<H256>,
    voter_parent_neighbor: HMap<H256>,
    transaction_ref_neighbor: HVecMap<H256>,
    proposer_ref_neighbor: HVecMap<H256>,
    proposer_best: (H256, u64),
    voter_best: Vec<(H256, u64)>,
    unreferred_transactions: HSet,
    unreferred_proposers: HSet,
    unconfirmed_proposers: HSet,
    ledger_tip: u64,
    num_voter_chains: u16,
}

impl BlockChain {
    /// How many voter chains the engine runs.
    pub closed spec fn spec_num_chains(&self) -> u16 {
        self.num_voter_chains
    }

    /// A leader needs strictly more votes than this.
    pub open spec fn threshold(&self) -> int {
        self.spec_num_chains() as int / 2 + 1
    }

    pub closed spec fn proposer_levels(&self) -> Map<H256, u64> {
        self.proposer_node_level@
    }

    pub closed spec fn voter_levels(&self) -> Map<H256, u64> {
        self.voter_node_level@
    }

    pub closed spec fn voter_chains(&self) -> Map<H256, u16> {
        self.voter_node_chain@
    }

    pub closed spec fn voted_levels(&self) -> Map<H256, u64> {
        self.voter_node_voted_level@
    }

    pub closed spec fn tree(&self) -> Map<u64, Seq<H256>> {
        self.proposer_tree_level@
    }

    pub closed spec fn votes(&self) -> Map<H256, Seq<(u16, u64)>> {
        self.proposer_node_vote@
    }

    pub closed spec fn leaders(&self) -> Map<u64, H256> {
        self.proposer_leader_sequence@
    }

    pub closed spec fn orders(&self) -> Map<u64, Seq<H256>> {
        self.proposer_ledger_order@
    }

    pub closed spec fn timestamps(&self) -> Map<H256, u64> {
        self.proposer_block_timestamp@
    }

    pub closed spec fn difficulties(&self) -> Map<H256, H256> {
        self.mining_difficulty@
    }

    pub closed spec fn parents(&self) -> Map<H256, H256> {
        self.parent_neighbor@
    }

    pub closed spec fn vote_edges(&self) -> Map<H256, Seq<H256>> {
        self.vote_neighbor@
    }

    pub closed spec fn voter_parents(&self) -> Map<H256, H256> {
        self.voter_parent_neighbor@
    }

    pub closed spec fn tx_refs(&self) -> Map<H256, Seq<H256>> {
        self.transaction_ref_neighbor@
    }

    pub closed spec fn proposer_refs(&self) -> Map<H256, Seq<H256>> {
        self.proposer_ref_neighbor@
    }

    pub closed spec fn spec_best_proposer(&self) -> (H256, u64) {
        self.proposer_best
    }

    pub closed spec fn spec_best_voters(&self) -> Seq<(H256, u64)> {
        self.voter_best@
    }

    pub closed spec fn spec_unreferred_transactions(&self) -> Set<H256> {
        self.unreferred_transactions@
    }

    pub closed spec fn spec_unreferred_proposers(&self) -> Set<H256> {
        self.unreferred_proposers@
    }

    pub closed spec fn spec_unconfirmed_proposers(&self) -> Set<H256> {
        self.unconfirmed_proposers@
    }

    pub closed spec fn spec_ledger_tip(&self) -> u64 {
        self.ledger_tip
    }

    /// A block identifier the engine has seen.
    pub open spec fn known(&self, h: H256) -> bool {
        self.parents().dom().contains(h) || h == proposer_genesis_spec()
    }

    spec fn tables_wf(&self) -> bool {
        &&& self.proposer_node_level.wf()
        &&& self.voter_node_level.wf()
        &&& self.voter_node_chain.wf()
        &&& self.voter_node_voted_level.wf()
        &&& self.proposer_tree_level.wf()
        &&& self.proposer_node_vote.wf()
        &&& self.proposer_leader_sequence.wf()
        &&& self.proposer_ledger_order.wf()
        &&& self.proposer_block_timestamp.wf()
        &&& self.mining_difficulty.wf()
        &&& self.parent_neighbor.wf()
        &&& self.vote_neighbor.wf()
        &&& self.voter_parent_neighbor.wf()
        &&& self.transaction_ref_neighbor.wf()
        &&& self.proposer_ref_neighbor.wf()
        &&& self.unreferred_transactions.wf()
        &&& self.unreferred_proposers.wf()
        &&& self.unconfirmed_proposers.wf()
        &&& self.voter_best@.len() == self.num_voter_chains as int
    }

    /// Proposer metadata: the genesis is at level zero; every proposer
    /// block has reference lists and a difficulty; every non-genesis
    /// proposer block has a parent one level below it and a timestamp.
    spec fn proposer_graph_wf(&self) -> bool {
        &&& self.proposer_levels().dom().contains(proposer_genesis_spec())
        &&& self.proposer_levels()[proposer_genesis_spec()] == 0
        &&& forall|h: H256|
            #[trigger] self.proposer_levels().dom().contains(h) ==> {
                &&& self.proposer_refs().dom().contains(h)
                &&& self.tx_refs().dom().contains(h)
                &&& self.difficulties().dom().contains(h)
            }
        &&& forall|h: H256|
            #[trigger] self.proposer_levels().dom().contains(h) && h != proposer_genesis_spec()
                ==> {
                &&& self.proposer_levels()[h] >= 1
                &&& self.proposer_levels()[h] < u64::MAX
                &&& self.parents().dom().contains(h)
                &&& self.proposer_levels().dom().contains(self.parents()[h])
                &&& self.proposer_levels()[self.parents()[h]] + 1 == self.proposer_levels()[h]
                &&& self.timestamps().dom().contains(h)
            }
        &&& forall|h: H256|
            #[trigger] self.proposer_levels().dom().contains(h) && self.proposer_levels()[h] == 0
                ==> h == proposer_genesis_spec()
    }

    /// The by-level index holds exactly the proposer blocks of each level,
    /// without duplicates, and is populated for every level up to the best
    /// tip's and no further.
    spec fn proposer_tree_wf(&self) -> bool {
        &&& forall|l: u64|
            #[trigger] self.tree().dom().contains(l) ==> {
                &&& self.tree()[l].len() > 0
                &&& self.tree()[l].no_duplicates()
                &&& l <= self.proposer_best.1
                &&& forall|i: int|
                    0 <= i < self.tree()[l].len() ==> {
                        &&& self.proposer_levels().dom().contains(#[trigger] self.tree()[l][i])
                        &&& self.proposer_levels()[self.tree()[l][i]] == l
                    }
            }
        &&& forall|h: H256|
            #[trigger] self.proposer_levels().dom().contains(h) ==> {
                &&& self.tree().dom().contains(self.proposer_levels()[h])
                &&& self.tree()[self.proposer_levels()[h]].contains(h)
            }
        &&& forall|l: u64| l <= self.proposer_best.1 ==> #[trigger] self.tree().dom().contains(l)
    }

    /// The proposer best tip has the maximal level, and is the first block
    /// that arrived at that level.
    spec fn proposer_best_wf(&self) -> bool {
        &&& self.proposer_levels().dom().contains(self.proposer_best.0)
        &&& self.proposer_levels()[self.proposer_best.0] == self.proposer_best.1
        &&& forall|h: H256|
            #[trigger] self.proposer_levels().dom().contains(h) ==> self.proposer_levels()[h]
                <= self.proposer_best.1
        &&& self.tree().dom().contains(self.proposer_best.1)
        &&& self.tree()[self.proposer_best.1][0] == self.proposer_best.0
    }

    /// Voter metadata: each chain has its genesis at level zero; every
    /// voter block carries its chain, its deepest voted level and its vote
    /// list; every non-genesis voter block has a voter parent one level
    /// below on the same chain; votes point at proposer blocks.
    spec fn voter_graph_wf(&self) -> bool {
        &&& forall|c: u16|
            (c as int) < self.num_voter_chains as int ==> {
                &&& self.voter_levels().dom().contains(#[trigger] voter_genesis_spec(c))
                &&& self.voter_levels()[voter_genesis_spec(c)] == 0
                &&& self.voter_chains().dom().contains(voter_genesis_spec(c))
                &&& self.voter_chains()[voter_genesis_spec(c)] == c
            }
        &&& forall|v: H256|
            #[trigger] self.voter_levels().dom().contains(v) ==> {
                &&& self.voter_chains().dom().contains(v)
                &&& (self.voter_chains()[v] as int) < self.num_voter_chains as int
                &&& self.voted_levels().dom().contains(v)
                &&& self.vote_edges().dom().contains(v)
                &&& self.parents().dom().contains(v)
                &&& (self.voter_levels()[v] == 0 <==> v == voter_genesis_spec(
                    self.voter_chains()[v],
                ))
            }
        &&& forall|v: H256|
            #[trigger] self.voter_levels().dom().contains(v) && self.voter_levels()[v] >= 1
                ==> {
                &&& self.voter_parents().dom().contains(v)
                &&& self.voter_levels().dom().contains(self.voter_parents()[v])
                &&& self.voter_levels()[self.voter_parents()[v]] + 1 == self.voter_levels()[v]
                &&& self.voter_chains()[self.voter_parents()[v]] == self.voter_chains()[v]
            }
        &&& forall|v: H256, i: int|
            self.voter_levels().dom().contains(v) && 0 <= i < self.vote_edges()[v].len()
                ==> self.proposer_levels().dom().contains(#[trigger] self.vote_edges()[v][i])
    }

    /// Each chain's best tip is a block of that chain at its maximal level.
    spec fn voter_best_wf(&self) -> bool {
        &&& forall|c: int|
            0 <= c < self.voter_best@.len() ==> {
                &&& self.voter_levels().dom().contains((#[trigger] self.voter_best@[c]).0)
                &&& self.voter_levels()[self.voter_best@[c].0] == self.voter_best@[c].1
                &&& self.voter_chains()[self.voter_best@[c].0] as int == c
            }
        &&& forall|v: H256|
            #[trigger] self.voter_levels().dom().contains(v) ==> self.voter_levels()[v]
                <= self.voter_best@[self.voter_chains()[v] as int].1
    }

    /// Vote sets belong to known proposer blocks.
    spec fn votes_wf(&self) -> bool {
        forall|h: H256|
            #[trigger] self.votes().dom().contains(h) ==> self.proposer_levels().dom().contains(h)
    }

    /// A proposer block's vote set clears the majority threshold.
    pub open spec fn qualified(&self, h: H256) -> bool {
        self.votes().dom().contains(h) && self.votes()[h].len() > self.threshold()
    }

    /// The last block of `s`, in order, whose vote set in `votes` holds
    /// strictly more than `thr` votes.
    pub open spec fn last_qualified_in(
        votes: Map<H256, Seq<(u16, u64)>>,
        thr: int,
        s: Seq<H256>,
    ) -> Option<H256>
        decreases s.len(),
    {
        if s.len() == 0 {
            None
        } else if votes.dom().contains(s.last()) && votes[s.last()].len() > thr {
            Some(s.last())
        } else {
            Self::last_qualified_in(votes, thr, s.drop_last())
        }
    }

    /// The leader a scan of a level elects: the last block in arrival
    /// order whose vote set clears the threshold, none when no block
    /// qualifies or the level is unknown.
    pub open spec fn elected(&self, l: u64) -> Option<H256> {
        if self.tree().dom().contains(l) {
            Self::last_qualified_in(self.votes(), self.threshold(), self.tree()[l])
        } else {
            None
        }
    }

    /// A found last-qualified block is a qualified member of the list.
    proof fn lemma_last_qualified_props(
        votes: Map<H256, Seq<(u16, u64)>>,
        thr: int,
        s: Seq<H256>,
    )
        ensures
            match Self::last_qualified_in(votes, thr, s) {
                Some(h) => s.contains(h) && votes.dom().contains(h) && votes[h].len() > thr,
                None => true,
            },
        decreases s.len(),
    {
        if s.len() > 0 {
            if votes.dom().contains(s.last()) && votes[s.last()].len() > thr {
                assert(s[s.len() - 1] == s.last());
            } else {
                Self::lemma_last_qualified_props(votes, thr, s.drop_last());
                match Self::last_qualified_in(votes, thr, s.drop_last()) {
                    Some(h) => {
                        let i = choose|i: int|
                            0 <= i < s.drop_last().len() && s.drop_last()[i] == h;
                        assert(s[i] == h);
                    },
                    None => {},
                }
            }
        }
    }

    /// Two vote tables agreeing on every member of a list elect the same
    /// last-qualified block from it.
    proof fn lemma_last_qualified_agree(
        v1: Map<H256, Seq<(u16, u64)>>,
        v2: Map<H256, Seq<(u16, u64)>>,
        thr: int,
        s: Seq<H256>,
    )
        requires
            forall|i: int|
                0 <= i < s.len() ==> {
                    &&& v1.dom().contains(#[trigger] s[i]) == v2.dom().contains(s[i])
                    &&& (v1.dom().contains(s[i]) ==> v1[s[i]] == v2[s[i]])
                },
        ensures
            Self::last_qualified_in(v1, thr, s) == Self::last_qualified_in(v2, thr, s),
        decreases s.len(),
    {
        if s.len() > 0 {
            assert(s[s.len() - 1] == s.last());
            assert forall|i: int| 0 <= i < s.drop_last().len() implies {
                &&& v1.dom().contains(#[trigger] s.drop_last()[i]) == v2.dom().contains(
                    s.drop_last()[i],
                )
                &&& (v1.dom().contains(s.drop_last()[i]) ==> v1[s.drop_last()[i]]
                    == v2[s.drop_last()[i]])
            } by {
                assert(s.drop_last()[i] == s[i]);
            }
            Self::lemma_last_qualified_agree(v1, v2, thr, s.drop_last());
        }
    }

    /// The leader table holds exactly the scan's choice at every led
    /// level.
    spec fn leader_exact(&self) -> bool {
        forall|l: u64|
            #[trigger] self.leaders().dom().contains(l) ==> self.elected(l) == Some(
                self.leaders()[l],
            )
    }

    /// Some proposer block first seen at level `l` is qualified.
    pub open spec fn has_qualified(&self, l: u64) -> bool {
        self.tree().dom().contains(l) && exists|i: int|
            0 <= i < self.tree()[l].len() && self.qualified(#[trigger] self.tree()[l][i])
    }

    /// Every level with a qualified proposer block has an elected leader.
    spec fn leader_complete(&self) -> bool {
        forall|l: u64| #[trigger] self.has_qualified(l) ==> self.leaders().dom().contains(l)
    }

    /// Every elected leader is a proposer block of its level whose vote
    /// set is over the majority threshold.
    spec fn leader_wf(&self) -> bool {
        forall|l: u64|
            #[trigger] self.leaders().dom().contains(l) ==> {
                &&& self.proposer_levels().dom().contains(self.leaders()[l])
                &&& self.proposer_levels()[self.leaders()[l]] == l
                &&& self.votes().dom().contains(self.leaders()[l])
                &&& self.votes()[self.leaders()[l]].len() > self.threshold()
            }
    }

    /// The ledger confirms `h` through level `l`.
    pub open spec fn confirmed_at(&self, l: u64, h: H256) -> bool {
        self.orders().dom().contains(l) && self.orders()[l].contains(h)
    }

    /// The ledger confirms `h` through some level.
    pub open spec fn confirmed(&self, h: H256) -> bool {
        exists|l: u64| #[trigger] self.confirmed_at(l, h)
    }

    /// Ledger entries sit at levels up to the tip, hold proposer blocks
    /// once each, and partition the known proposer blocks together with
    /// the unconfirmed set.
    spec fn ledger_wf(&self) -> bool {
        &&& forall|l: u64|
            #[trigger] self.orders().dom().contains(l) ==> {
                &&& self.orders()[l].no_duplicates()
                &&& forall|i: int|
                    0 <= i < self.orders()[l].len() ==> self.proposer_levels().dom().contains(
                        #[trigger] self.orders()[l][i],
                    )
            }
        &&& forall|l1: u64, l2: u64, h: H256|
            #[trigger] self.confirmed_at(l1, h) && #[trigger] self.confirmed_at(l2, h) ==> l1
                == l2
        &&& forall|h: H256|
            #[trigger] self.spec_unconfirmed_proposers().contains(h)
                ==> self.proposer_levels().dom().contains(h)
        &&& forall|h: H256|
            #[trigger] self.spec_unreferred_proposers().contains(h)
                ==> self.proposer_levels().dom().contains(h)
        &&& forall|h: H256|
            #[trigger] self.proposer_levels().dom().contains(h) ==> (
            self.spec_unconfirmed_proposers().contains(h) <==> !self.confirmed(h))
    }

    /// Ledger entries sit at levels up to the tip, and the tip within the
    /// proposer tree's height.
    spec fn orders_bounded(&self) -> bool {
        &&& forall|l: u64| #[trigger] self.orders().dom().contains(l) ==> l <= self.ledger_tip
        &&& self.ledger_tip <= self.proposer_best.1
    }

    /// The parts of the invariant that hold even while an insertion is
    /// between its batches, before the leaders and the tip are restored.
    spec fn inv_core(&self) -> bool {
        &&& self.tables_wf()
        &&& self.proposer_graph_wf()
        &&& self.proposer_tree_wf()
        &&& self.proposer_best_wf()
        &&& self.voter_graph_wf()
        &&& self.voter_best_wf()
        &&& self.votes_wf()
        &&& self.ledger_wf()
    }

    /// Ledger orders exist only at led levels, and the tip rests at the
    /// leaderless frontier the last rebuild stopped at: either the level
    /// above it has no leader, or the rebuild stopped at a leaderless
    /// level zero.
    spec fn ledger_frontier(&self) -> bool {
        &&& forall|l: u64|
            #[trigger] self.orders().dom().contains(l) ==> self.leaders().dom().contains(l)
        &&& (!self.leaders().dom().contains((self.ledger_tip + 1) as u64) || (self.ledger_tip
            == 0 && !self.leaders().dom().contains(0u64)))
    }

    /// Everything of the invariant except the frontier tie between
    /// leaders, orders and tip — the part a leader update alone cannot
    /// keep until the ledger is rebuilt.
    spec fn inv_sans_frontier(&self) -> bool {
        &&& self.inv_core()
        &&& self.leader_wf()
        &&& self.leader_complete()
        &&& self.leader_exact()
        &&& self.orders_bounded()
    }

    /// The state invariant that holds after creation and after every
    /// insertion.
    pub closed spec fn inv(&self) -> bool {
        &&& self.inv_sans_frontier()
        &&& self.ledger_frontier()
    }

    /// Create a fresh engine with `num_chains` voter chains, seeded with
    /// the proposer genesis and one voter genesis per chain.
    pub fn new(num_chains: u16) -> (r: BlockChain)
        requires
            num_chains >= 3,
        ensures
            r.inv(),
            r.spec_num_chains() == num_chains,
            r.proposer_levels() =~= Map::empty().insert(proposer_genesis_spec(), 0u64),
            r.tree() =~= Map::empty().insert(0u64, seq![proposer_genesis_spec()]),
            r.votes() =~= Map::empty().insert(
                proposer_genesis_spec(),
                Seq::new(num_chains as nat, |i: int| (i as u16, 0u64)),
            ),
            r.leaders() =~= Map::empty().insert(0u64, proposer_genesis_spec()),
            r.orders() =~= Map::empty().insert(0u64, seq![proposer_genesis_spec()]),
            r.spec_best_proposer() == (proposer_genesis_spec(), 0u64),
            r.spec_best_voters().len() == num_chains as int,
            r.spec_unreferred_proposers() =~= Set::empty().insert(proposer_genesis_spec()),
            r.spec_unreferred_transactions() =~= Set::<H256>::empty(),
            r.spec_unconfirmed_proposers() =~= Set::<H256>::empty(),
            r.spec_ledger_tip() == 0,
            r.difficulties()[proposer_genesis_spec()] == (H256 {
                w0: 0u64,
                w1: 1u64,
                w2: 0u64,
                w3: 0u64,
            }),
            forall|c: u16|
                (c as int) < num_chains as int ==> {
                    &&& r.voter_levels().dom().contains(#[trigger] voter_genesis_spec(c))
                    &&& r.voter_levels()[voter_genesis_spec(c)] == 0
                    &&& r.voter_chains()[voter_genesis_spec(c)] == c
                    &&& r.voted_levels()[voter_genesis_spec(c)] == 0
                    &&& r.parents()[voter_genesis_spec(c)] == proposer_genesis_spec()
                    &&& r.vote_edges()[voter_genesis_spec(c)] =~= seq![proposer_genesis_spec()]
                    &&& r.spec_best_voters()[c as int] == (voter_genesis_spec(c), 0u64)
                },
            forall|hh: H256|
                #[trigger] r.voter_levels().dom().contains(hh) ==> exists|c: u16|
                    (c as int) < num_chains as int && hh == #[trigger] voter_genesis_spec(c),
            forall|hh: H256|
                #[trigger] r.parents().dom().contains(hh) == r.voter_levels().dom().contains(hh),
            forall|hh: H256|
                #[trigger] r.voter_chains().dom().contains(hh) == r.voter_levels().dom().contains(
                    hh,
                ),
            forall|hh: H256|
                #[trigger] r.voted_levels().dom().contains(hh) == r.voter_levels().dom().contains(
                    hh,
                ),
            forall|hh: H256|
                #[trigger] r.vote_edges().dom().contains(hh) == r.voter_levels().dom().contains(
                    hh,
                ),
            r.voter_parents() == Map::<H256, H256>::empty(),
            r.timestamps() == Map::<H256, u64>::empty(),
            r.difficulties().dom() =~= Set::empty().insert(proposer_genesis_spec()),
            r.tx_refs() =~= Map::empty().insert(proposer_genesis_spec(), Seq::<H256>::empty()),
            r.proposer_refs() =~= Map::empty().insert(
                proposer_genesis_spec(),
                Seq::<H256>::empty(),
            ),
    {
        let gp = proposer_genesis_hash();
        let mut proposer_node_level: HMap<u64> = HMap::new();
        proposer_node_level.insert(gp, 0);
        let mut proposer_tree_level: LVecMap<H256> = LVecMap::new();
        let mut level0: Vec<H256> = Vec::new();
        level0.push(gp);
        proposer_tree_level.insert(0, level0);
        let mut mining_difficulty: HMap<H256> = HMap::new();
        mining_difficulty.insert(gp, initial_difficulty());
        let mut proposer_leader_sequence: LMap<H256> = LMap::new();
        proposer_leader_sequence.insert(0, gp);
        let mut proposer_ledger_order: LVecMap<H256> = LVecMap::new();
        let mut order0: Vec<H256> = Vec::new();
        order0.push(gp);
        proposer_ledger_order.insert(0, order0);
        let mut proposer_ref_neighbor: HVecMap<H256> = HVecMap::new();
        proposer_ref_neighbor.insert(gp, Vec::new());
        let mut transaction_ref_neighbor: HVecMap<H256> = HVecMap::new();
        transaction_ref_neighbor.insert(gp, Vec::new());
        let mut unreferred_proposers = HSet::new();
        unreferred_proposers.insert(gp);

        let mut genesis_votes: Vec<(u16, u64)> = Vec::new();
        let mut voter_node_level: HMap<u64> = HMap::new();
        let mut voter_node_chain: HMap<u16> = HMap::new();
        let mut voter_node_voted_level: HMap<u64> = HMap::new();
        let mut parent_neighbor: HMap<H256> = HMap::new();
        let mut vote_neighbor: HVecMap<H256> = HVecMap::new();
        let mut voter_best: Vec<(H256, u64)> = Vec::new();
        let mut chain: u16 = 0;
        #[verifier::loop_isolation(false)]
        while chain < num_chains
            invariant
                0 <= chain <= num_chains,
                genesis_votes@ =~= Seq::new(chain as nat, |i: int| (i as u16, 0u64)),
                voter_node_level.wf(),
                voter_node_chain.wf(),
                voter_node_voted_level.wf(),
                parent_neighbor.wf(),
                vote_neighbor.wf(),
                voter_best@.len() == chain as int,
                forall|c: u16|
                    (c as int) < chain as int ==> {
                        &&& voter_node_level@.dom().contains(#[trigger] voter_genesis_spec(c))
                        &&& voter_node_level@[voter_genesis_spec(c)] == 0
                        &&& voter_node_chain@.dom().contains(voter_genesis_spec(c))
                        &&& voter_node_chain@[voter_genesis_spec(c)] == c
                        &&& voter_node_voted_level@.dom().contains(voter_genesis_spec(c))
                        &&& voter_node_voted_level@[voter_genesis_spec(c)] == 0
                        &&& parent_neighbor@.dom().contains(voter_genesis_spec(c))
                        &&& parent_neighbor@[voter_genesis_spec(c)] == proposer_genesis_spec()
                        &&& vote_neighbor@.dom().contains(voter_genesis_spec(c))
                        &&& vote_neighbor@[voter_genesis_spec(c)] =~= seq![
                            proposer_genesis_spec(),
                        ]
                        &&& voter_best@[c as int] == (voter_genesis_spec(c), 0u64)
                    },
                forall|v: H256|
                    #[trigger] voter_node_level@.dom().contains(v) ==> exists|c: u16|
                        (c as int) < chain as int && v == #[trigger] voter_genesis_spec(c),
                forall|v: H256|
                    #[trigger] voter_node_chain@.dom().contains(v)
                        == voter_node_level@.dom().contains(v),
                forall|v: H256|
                    #[trigger] voter_node_voted_level@.dom().contains(v)
                        == voter_node_level@.dom().contains(v),
                forall|v: H256|
                    #[trigger] vote_neighbor@.dom().contains(v) == voter_node_level@.dom().contains(
                        v,
                    ),
                forall|v: H256|
                    #[trigger] parent_neighbor@.dom().contains(v)
                        == voter_node_level@.dom().contains(v),
            decreases num_chains - chain,
        {
            let gv = voter_genesis_hash(chain);
            voter_node_level.insert(gv, 0);
            voter_node_chain.insert(gv, chain);
            voter_node_voted_level.insert(gv, 0);
            parent_neighbor.insert(gv, gp);
            let mut gv_votes: Vec<H256> = Vec::new();
            gv_votes.push(gp);
            vote_neighbor.insert(gv, gv_votes);
            voter_best.push((gv, 0));
            genesis_votes.push((chain, 0));
            proof {
                assert(genesis_votes@ =~= Seq::new((chain + 1) as nat, |i: int| (i as u16, 0u64)));
                assert forall|c: u16| (c as int) < chain as int + 1 implies {
                    &&& voter_node_level@.dom().contains(#[trigger] voter_genesis_spec(c))
                    &&& voter_node_level@[voter_genesis_spec(c)] == 0
                } by {
                    assert(voter_genesis_spec(c) == gv <==> c == chain);
                }
            }
            chain += 1;
        }
        let mut proposer_node_vote: HVecMap<(u16, u64)> = HVecMap::new();
        proposer_node_vote.insert(gp, genesis_votes);

        let r = BlockChain {
            proposer_node_level,
            voter_node_level,
            voter_node_chain,
            voter_node_voted_level,
            proposer_tree_level,
            proposer_node_vote,
            proposer_leader_sequence,
            proposer_ledger_order,
            proposer_block_timestamp: HMap::new(),
            mining_difficulty,
            parent_neighbor,
            vote_neighbor,
            voter_parent_neighbor: HMap::new(),
            transaction_ref_neighbor,
            proposer_ref_neighbor,
            proposer_best: (gp, 0),
            voter_best,
            unreferred_transactions: HSet::new(),
            unreferred_proposers,
            unconfirmed_proposers: HSet::new(),
            ledger_tip: 0,
            num_voter_chains: num_chains,
        };
        proof {
            assert(r.proposer_levels() =~= Map::empty().insert(proposer_genesis_spec(), 0u64));
            assert(r.tree() =~= Map::empty().insert(0u64, seq![proposer_genesis_spec()]));
            assert(r.orders() =~= Map::empty().insert(0u64, seq![proposer_genesis_spec()]));
            assert(r.leaders() =~= Map::empty().insert(0u64, proposer_genesis_spec()));
            assert(r.votes() =~= Map::empty().insert(
                proposer_genesis_spec(),
                Seq::new(num_chains as nat, |i: int| (i as u16, 0u64)),
            ));
            assert(r.tree()[0u64].no_duplicates());
            assert(r.orders()[0u64].no_duplicates());
            assert(r.tables_wf());
            assert(r.proposer_graph_wf());
            assert(r.tree()[0u64] =~= seq![proposer_genesis_spec()]);
            assert(r.tree()[0u64][0] == proposer_genesis_spec());
            assert(r.tree()[0u64].contains(proposer_genesis_spec()));
            assert forall|l: u64| #[trigger] r.tree().dom().contains(l) implies l == 0u64 by {}
            assert(r.proposer_tree_wf());
            assert(r.proposer_best_wf());
            assert(r.voter_graph_wf());
            assert forall|c: int| 0 <= c < r.voter_best@.len() implies {
                &&& r.voter_levels().dom().contains((#[trigger] r.voter_best@[c]).0)
                &&& r.voter_levels()[r.voter_best@[c].0] == r.voter_best@[c].1
                &&& r.voter_chains()[r.voter_best@[c].0] as int == c
            } by {
                let cu = c as u16;
                assert(r.spec_best_voters()[cu as int] == (voter_genesis_spec(cu), 0u64));
            }
            assert forall|v: H256| #[trigger] r.voter_levels().dom().contains(v) implies {
                &&& r.voter_levels()[v] <= r.spec_best_voters()[r.voter_chains()[v] as int].1
            } by {
                let c = choose|c: u16|
                    (c as int) < num_chains as int && v == #[trigger] voter_genesis_spec(c);
                assert(r.voter_chains()[v] == c);
                assert(r.spec_best_voters()[c as int].1 == 0);
            }
            assert(r.voter_best_wf());
            assert(r.votes_wf());
            assert(r.leader_wf()) by {
                assert(r.votes()[r.leaders()[0u64]].len() == num_chains as int);
            }
            assert(r.ledger_wf()) by {
                assert forall|h: H256| #[trigger] r.proposer_levels().dom().contains(h) implies (
                r.spec_unconfirmed_proposers().contains(h) <==> !r.confirmed(h)) by {
                    assert(h == proposer_genesis_spec());
                    assert(r.orders()[0u64][0] == proposer_genesis_spec());
                    assert(r.confirmed_at(0u64, proposer_genesis_spec()));
                }
            }
            assert(r.orders_bounded());
            assert(r.ledger_frontier()) by {
                assert(r.leaders().dom() =~= Set::empty().insert(0u64));
            }
            assert(r.leader_exact()) by {
                assert forall|l: u64| #[trigger] r.leaders().dom().contains(l)
                    implies r.elected(l) == Some(r.leaders()[l]) by {
                    assert(l == 0);
                    assert(r.tree()[0u64].last() == proposer_genesis_spec());
                    assert(r.qualified(proposer_genesis_spec()));
                }
            }
            assert(r.leader_complete()) by {
                assert forall|l: u64| #[trigger] r.has_qualified(l)
                    implies r.leaders().dom().contains(l) by {
                    assert(r.tree().dom().contains(l));
                    assert(l == 0);
                }
            }
            assert(r.inv());
        }
        r
    }
}

} // verus!

verus! {

impl BlockChain {
    pub fn num_chains(&self) -> (r: u16)
        ensures
            r == self.spec_num_chains(),
    {
        self.num_voter_chains
    }

    /// The proposer best tip.
    pub fn best_proposer(&self) -> (r: H256)
        ensures
            r == self.spec_best_proposer().0,
    {
        self.proposer_best.0
    }

    /// The level of the proposer best tip.
    pub fn best_proposer_level(&self) -> (r: u64)
        ensures
            r == self.spec_best_proposer().1,
    {
        self.proposer_best.1
    }

    /// The best tip of one voter chain.
    pub fn best_voter(&self, chain_num: usize) -> (r: H256)
        requires
            self.inv(),
            chain_num < self.spec_num_chains() as int,
        ensures
            r == self.spec_best_voters()[chain_num as int].0,
    {
        self.voter_best[chain_num].0
    }

    /// A snapshot of the proposer blocks no later proposer block cites.
    pub fn unreferred_proposer(&self) -> (r: Vec<H256>)
        requires
            self.inv(),
        ensures
            r@.to_set() == self.spec_unreferred_proposers(),
            r@.no_duplicates(),
            r@.len() == self.spec_unreferred_proposers().len(),
    {
        self.unreferred_proposers.to_vec()
    }

    /// A snapshot of the transaction blocks no proposer block cites.
    pub fn unreferred_transaction(&self) -> (r: Vec<H256>)
        requires
            self.inv(),
        ensures
            r@.to_set() == self.spec_unreferred_transactions(),
            r@.no_duplicates(),
            r@.len() == self.spec_unreferred_transactions().len(),
    {
        self.unreferred_transactions.to_vec()
    }

    /// A snapshot of the proposer blocks no ledger level confirms.
    pub fn unconfirmed_proposer(&self) -> (r: Vec<H256>)
        requires
            self.inv(),
        ensures
            r@.to_set() == self.spec_unconfirmed_proposers(),
            r@.no_duplicates(),
            r@.len() == self.spec_unconfirmed_proposers().len(),
    {
        self.unconfirmed_proposers.to_vec()
    }

    /// The level of a proposer block the engine holds.
    pub fn proposer_level(&self, hash: &H256) -> (r: u64)
        requires
            self.inv(),
            self.proposer_levels().dom().contains(*hash),
        ensures
            r == self.proposer_levels()[*hash],
    {
        self.proposer_node_level.at(hash)
    }

    /// Whether the engine holds this proposer block.
    pub fn contains_proposer(&self, hash: &H256) -> (r: bool)
        requires
            self.inv(),
        ensures
            r == self.proposer_levels().dom().contains(*hash),
    {
        self.proposer_node_level.contains(hash)
    }

    /// Whether the engine has seen a block under this identifier, of any
    /// kind. A block may be inserted only while this is false.
    pub fn contains_block(&self, hash: &H256) -> (r: bool)
        requires
            self.inv(),
        ensures
            r == self.known(*hash),
    {
        self.parent_neighbor.contains(hash) || *hash == proposer_genesis_hash()
    }

    /// Whether the engine holds this voter block.
    pub fn contains_voter(&self, hash: &H256) -> (r: bool)
        requires
            self.inv(),
        ensures
            r == self.voter_levels().dom().contains(*hash),
    {
        self.voter_node_level.contains(hash)
    }

    /// The mining difficulty attached to a proposer block.
    pub fn get_proposer_difficulty(&self, hash: &H256) -> (r: H256)
        requires
            self.inv(),
            self.proposer_levels().dom().contains(*hash),
        ensures
            r == self.difficulties()[*hash],
    {
        self.mining_difficulty.at(hash)
    }

    /// The current vote set of a proposer block; empty when no vote was
    /// ever recorded for it.
    pub fn proposer_votes(&self, hash: &H256) -> (r: Vec<(u16, u64)>)
        requires
            self.inv(),
        ensures
            self.votes().dom().contains(*hash) ==> r@ == self.votes()[*hash],
            !self.votes().dom().contains(*hash) ==> r@.len() == 0,
    {
        match self.proposer_node_vote.get(hash) {
            Some(v) => v,
            None => Vec::new(),
        }
    }

    /// The proposer parent of a block.
    pub fn get_parent(&self, hash: &H256) -> (r: Option<H256>)
        requires
            self.inv(),
        ensures
            match r {
                Some(p) => self.parents().dom().contains(*hash) && p == self.parents()[*hash],
                None => !self.parents().dom().contains(*hash),
            },
    {
        self.parent_neighbor.get(hash)
    }

    /// The voter parent of a voter block.
    pub fn get_voter_parent(&self, hash: &H256) -> (r: Option<H256>)
        requires
            self.inv(),
        ensures
            match r {
                Some(p) => self.voter_parents().dom().contains(*hash) && p
                    == self.voter_parents()[*hash],
                None => !self.voter_parents().dom().contains(*hash),
            },
    {
        self.voter_parent_neighbor.get(hash)
    }

    /// The level of a voter block.
    pub fn get_voter_level(&self, hash: &H256) -> (r: Option<u64>)
        requires
            self.inv(),
        ensures
            match r {
                Some(l) => self.voter_levels().dom().contains(*hash) && l
                    == self.voter_levels()[*hash],
                None => !self.voter_levels().dom().contains(*hash),
            },
    {
        self.voter_node_level.get(hash)
    }

    /// The chain of a voter block.
    pub fn get_voter_chain(&self, hash: &H256) -> (r: Option<u16>)
        requires
            self.inv(),
        ensures
            match r {
                Some(c) => self.voter_chains().dom().contains(*hash) && c
                    == self.voter_chains()[*hash],
                None => !self.voter_chains().dom().contains(*hash),
            },
    {
        self.voter_node_chain.get(hash)
    }

    /// The deepest proposer level a voter block has voted through.
    pub fn get_voted_level(&self, hash: &H256) -> (r: Option<u64>)
        requires
            self.inv(),
        ensures
            match r {
                Some(l) => self.voted_levels().dom().contains(*hash) && l
                    == self.voted_levels()[*hash],
                None => !self.voted_levels().dom().contains(*hash),
            },
    {
        self.voter_node_voted_level.get(hash)
    }

    /// The proposer blocks a voter block votes for.
    pub fn get_vote_edges(&self, hash: &H256) -> (r: Option<Vec<H256>>)
        requires
            self.inv(),
        ensures
            match r {
                Some(v) => self.vote_edges().dom().contains(*hash) && v@
                    == self.vote_edges()[*hash],
                None => !self.vote_edges().dom().contains(*hash),
            },
    {
        self.vote_neighbor.get(hash)
    }

    /// The transaction blocks a proposer block cites.
    pub fn get_transaction_refs(&self, hash: &H256) -> (r: Option<Vec<H256>>)
        requires
            self.inv(),
        ensures
            match r {
                Some(v) => self.tx_refs().dom().contains(*hash) && v@ == self.tx_refs()[*hash],
                None => !self.tx_refs().dom().contains(*hash),
            },
    {
        self.transaction_ref_neighbor.get(hash)
    }

    /// The proposer blocks a proposer block cites, its parent first.
    pub fn get_proposer_refs(&self, hash: &H256) -> (r: Option<Vec<H256>>)
        requires
            self.inv(),
        ensures
            match r {
                Some(v) => self.proposer_refs().dom().contains(*hash) && v@
                    == self.proposer_refs()[*hash],
                None => !self.proposer_refs().dom().contains(*hash),
            },
    {
        self.proposer_ref_neighbor.get(hash)
    }

    /// The proposer blocks first seen at a level, in arrival order.
    pub fn get_proposer_tree_level(&self, level: u64) -> (r: Option<Vec<H256>>)
        requires
            self.inv(),
        ensures
            match r {
                Some(v) => self.tree().dom().contains(level) && v@ == self.tree()[level],
                None => !self.tree().dom().contains(level),
            },
    {
        self.proposer_tree_level.get(level)
    }

    /// The elected leader of a proposer level, if any.
    pub fn get_leader(&self, level: u64) -> (r: Option<H256>)
        requires
            self.inv(),
        ensures
            match r {
                Some(h) => self.leaders().dom().contains(level) && h == self.leaders()[level],
                None => !self.leaders().dom().contains(level),
            },
    {
        self.proposer_leader_sequence.get(level)
    }

    /// The ledger order of a proposer level, if the level is confirmed.
    pub fn get_ledger_order(&self, level: u64) -> (r: Option<Vec<H256>>)
        requires
            self.inv(),
        ensures
            match r {
                Some(v) => self.orders().dom().contains(level) && v@ == self.orders()[level],
                None => !self.orders().dom().contains(level),
            },
    {
        self.proposer_ledger_order.get(level)
    }

    /// The highest level whose ledger order exists.
    pub fn get_ledger_tip(&self) -> (r: u64)
        ensures
            r == self.spec_ledger_tip(),
    {
        self.ledger_tip
    }

    /// The timestamp recorded for a proposer block.
    pub fn get_proposer_timestamp(&self, hash: &H256) -> (r: Option<u64>)
        requires
            self.inv(),
        ensures
            match r {
                Some(t) => self.timestamps().dom().contains(*hash) && t
                    == self.timestamps()[*hash],
                None => !self.timestamps().dom().contains(*hash),
            },
    {
        self.proposer_block_timestamp.get(hash)
    }

    /// The proposer blocks a voter chain with the given tip should vote
    /// for: the first block of every proposer level above the tip's
    /// deepest voted level, lowest level first.
    #[verifier::rlimit(50)]
    pub fn unvoted_proposer(&self, tip: &H256) -> (r: Vec<H256>)
        requires
            self.inv(),
            self.voted_levels().dom().contains(*tip),
        ensures
            ({
                let voted = self.voted_levels()[*tip];
                let best = self.spec_best_proposer().1;
                &&& voted >= best ==> r@.len() == 0
                &&& voted < best ==> r@.len() == best - voted
                &&& forall|i: int|
                    0 <= i < r@.len() ==> r@[i] == self.tree()[(voted + 1 + i) as u64][0]
            }),
    {
        let voted_level = self.voter_node_voted_level.at(tip);
        let best_level = self.proposer_best.1;
        let mut list: Vec<H256> = Vec::new();
        if voted_level >= best_level {
            return list;
        }
        let count: u64 = best_level - voted_level;
        let mut i: u64 = 0;
        #[verifier::loop_isolation(false)]
        while i < count
            invariant
                0 <= i <= count,
                list@.len() == i,
                forall|j: int|
                    0 <= j < list@.len() ==> list@[j] == self.tree()[(voted_level + 1 + j) as u64][0],
            decreases count - i,
        {
            let level: u64 = voted_level + 1 + i;
            proof {
                assert(level <= best_level);
                assert(self.tree().dom().contains(level));
                assert(self.tree()[level].len() > 0);
            }
            let blocks = self.proposer_tree_level.at(level);
            list.push(blocks[0]);
            i += 1;
        }
        list
    }
}

} // verus!

verus! {

impl BlockChain {
    /// The ancestor reached from `h` by following `k` parent links.
    pub open spec fn ancestor_at(&self, h: H256, k: nat) -> H256
        decreases k,
    {
        if k == 0 {
            h
        } else {
            self.ancestor_at(self.parents()[h], (k - 1) as nat)
        }
    }

    proof fn lemma_ancestor_unfold(&self, h: H256, k: nat)
        ensures
            self.ancestor_at(h, k + 1) == self.parents()[self.ancestor_at(h, k)],
        decreases k,
    {
        assert(self.ancestor_at(h, k + 1) == self.ancestor_at(self.parents()[h], k));
        if k == 0 {
            assert(self.ancestor_at(h, 1) == self.ancestor_at(self.parents()[h], 0));
        } else {
            self.lemma_ancestor_unfold(self.parents()[h], (k - 1) as nat);
            assert(self.ancestor_at(h, k) == self.ancestor_at(self.parents()[h], (k - 1) as nat));
        }
    }

    /// What the caller's validator must have established before handing a
    /// block to the engine: the identifier is new, the parents exist, a
    /// voter's votes point at known proposer blocks, and the parent levels
    /// leave room for one more level.
    pub open spec fn can_insert(&self, b: Block) -> bool {
        &&& !self.known(b.hash)
        &&& match b.content {
            Content::Transaction(_) => self.proposer_levels().dom().contains(b.parent),
            Content::Proposer(_) => self.proposer_levels().dom().contains(b.parent)
                && self.proposer_levels()[b.parent] < u64::MAX - 1,
            Content::Voter(c) => {
                &&& self.voter_levels().dom().contains(c.voter_parent)
                &&& self.voter_levels()[c.voter_parent] < u64::MAX - 1
                &&& self.proposer_levels().dom().contains(b.parent)
                &&& forall|i: int|
                    0 <= i < c.votes@.len() ==> self.proposer_levels().dom().contains(
                        #[trigger] c.votes@[i],
                    )
            },
        }
    }

    /// Exactly what inserting a transaction block changes: the parent
    /// edge is recorded and the block becomes unreferred.
    pub open spec fn transaction_inserted(
        pre: BlockChain,
        post: BlockChain,
        hash: H256,
        parent: H256,
    ) -> bool {
        &&& post.parents() == pre.parents().insert(hash, parent)
        &&& post.spec_unreferred_transactions() == pre.spec_unreferred_transactions().insert(hash)
        &&& post.proposer_levels() == pre.proposer_levels()
        &&& post.voter_levels() == pre.voter_levels()
        &&& post.voter_chains() == pre.voter_chains()
        &&& post.voted_levels() == pre.voted_levels()
        &&& post.tree() == pre.tree()
        &&& post.votes() == pre.votes()
        &&& post.leaders() == pre.leaders()
        &&& post.orders() == pre.orders()
        &&& post.timestamps() == pre.timestamps()
        &&& post.difficulties() == pre.difficulties()
        &&& post.vote_edges() == pre.vote_edges()
        &&& post.voter_parents() == pre.voter_parents()
        &&& post.tx_refs() == pre.tx_refs()
        &&& post.proposer_refs() == pre.proposer_refs()
        &&& post.spec_best_proposer() == pre.spec_best_proposer()
        &&& post.spec_best_voters() == pre.spec_best_voters()
        &&& post.spec_unreferred_proposers() == pre.spec_unreferred_proposers()
        &&& post.spec_unconfirmed_proposers() == pre.spec_unconfirmed_proposers()
        &&& post.spec_ledger_tip() == pre.spec_ledger_tip()
        &&& post.spec_num_chains() == pre.spec_num_chains()
    }

    /// The level a proposer block gets: one above its parent's.
    pub open spec fn new_proposer_level(pre: BlockChain, parent: H256) -> u64 {
        (pre.proposer_levels()[parent] + 1) as u64
    }

    /// The difficulty a proposer block at level `l` gets. Off retarget
    /// levels it inherits its parent's. On a retarget level the epoch that
    /// just closed is measured: the walk goes back `K - 2` parent links
    /// from the parent, and the elapsed time from that ancestor's
    /// timestamp to the new block's drives the retarget rule.
    pub open spec fn new_proposer_difficulty_val(
        pre: BlockChain,
        parent: H256,
        timestamp: u64,
        l: u64,
    ) -> nat {
        let parent_difficulty = pre.difficulties()[parent];
        if l % DIFFICULTY_CHANGE_INTERVAL != 0 {
            crate::hash::h256_val(parent_difficulty)
        } else {
            let ancestor = pre.ancestor_at(parent, (DIFFICULTY_CHANGE_INTERVAL - 2) as nat);
            let ancestor_timestamp = pre.timestamps()[ancestor];
            let elapsed = if timestamp >= ancestor_timestamp {
                (timestamp - ancestor_timestamp) as u64
            } else {
                0u64
            };
            crate::difficulty::spec_retarget(crate::hash::h256_val(parent_difficulty), elapsed)
        }
    }

    /// Exactly what inserting a proposer block changes: level, tree
    /// index, references with the parent cited first, timestamp,
    /// difficulty, the unreferred and unconfirmed sets, and the best tip
    /// when the new level is strictly higher.
    pub open spec fn proposer_inserted(
        pre: BlockChain,
        post: BlockChain,
        hash: H256,
        parent: H256,
        timestamp: u64,
        c: crate::block::proposer::Content,
    ) -> bool {
        let l = Self::new_proposer_level(pre, parent);
        &&& post.parents() == pre.parents().insert(hash, parent)
        &&& post.proposer_levels() == pre.proposer_levels().insert(hash, l)
        &&& post.tree() == pre.tree().insert(
            l,
            if pre.tree().dom().contains(l) {
                pre.tree()[l].push(hash)
            } else {
                seq![hash]
            },
        )
        &&& post.proposer_refs() == pre.proposer_refs().insert(
            hash,
            seq![parent] + c.proposer_refs@,
        )
        &&& post.tx_refs() == pre.tx_refs().insert(hash, c.transaction_refs@)
        &&& post.timestamps() == pre.timestamps().insert(hash, timestamp)
        &&& post.difficulties().dom() == pre.difficulties().dom().insert(hash)
        &&& forall|h: H256|
            #[trigger] pre.difficulties().dom().contains(h) && h != hash
                ==> post.difficulties()[h] == pre.difficulties()[h]
        &&& crate::hash::h256_val(post.difficulties()[hash])
            == Self::new_proposer_difficulty_val(pre, parent, timestamp, l)
        &&& post.spec_unreferred_proposers() == pre.spec_unreferred_proposers().difference(
            c.proposer_refs@.to_set(),
        ).remove(parent).insert(hash)
        &&& post.spec_unreferred_transactions() == pre.spec_unreferred_transactions().difference(
            c.transaction_refs@.to_set(),
        )
        &&& post.spec_unconfirmed_proposers() == pre.spec_unconfirmed_proposers().insert(hash)
        &&& post.spec_best_proposer() == if l > pre.spec_best_proposer().1 {
            (hash, l)
        } else {
            pre.spec_best_proposer()
        }
        &&& post.voter_levels() == pre.voter_levels()
        &&& post.voter_chains() == pre.voter_chains()
        &&& post.voted_levels() == pre.voted_levels()
        &&& post.votes() == pre.votes()
        &&& post.leaders() == pre.leaders()
        &&& post.orders() == pre.orders()
        &&& post.vote_edges() == pre.vote_edges()
        &&& post.voter_parents() == pre.voter_parents()
        &&& post.spec_best_voters() == pre.spec_best_voters()
        &&& post.spec_ledger_tip() == pre.spec_ledger_tip()
        &&& post.spec_num_chains() == pre.spec_num_chains()
    }

    fn insert_transaction_block(&mut self, hash: H256, parent: H256)
        requires
            old(self).inv(),
            !old(self).known(hash),
            old(self).proposer_levels().dom().contains(parent),
        ensures
            final(self).inv(),
            final(self).parents() == old(self).parents().insert(hash, parent),
            final(self).spec_unreferred_transactions() == old(
                self,
            ).spec_unreferred_transactions().insert(hash),
            final(self).proposer_levels() == old(self).proposer_levels(),
            final(self).voter_levels() == old(self).voter_levels(),
            final(self).voter_chains() == old(self).voter_chains(),
            final(self).voted_levels() == old(self).voted_levels(),
            final(self).tree() == old(self).tree(),
            final(self).votes() == old(self).votes(),
            final(self).leaders() == old(self).leaders(),
            final(self).orders() == old(self).orders(),
            final(self).timestamps() == old(self).timestamps(),
            final(self).difficulties() == old(self).difficulties(),
            final(self).vote_edges() == old(self).vote_edges(),
            final(self).voter_parents() == old(self).voter_parents(),
            final(self).tx_refs() == old(self).tx_refs(),
            final(self).proposer_refs() == old(self).proposer_refs(),
            final(self).spec_best_proposer() == old(self).spec_best_proposer(),
            final(self).spec_best_voters() == old(self).spec_best_voters(),
            final(self).spec_unreferred_proposers() == old(self).spec_unreferred_proposers(),
            final(self).spec_unconfirmed_proposers() == old(self).spec_unconfirmed_proposers(),
            final(self).spec_ledger_tip() == old(self).spec_ledger_tip(),
            final(self).spec_num_chains() == old(self).spec_num_chains(),
    {
        self.parent_neighbor.insert(hash, parent);
        self.unreferred_transactions.insert(hash);
        proof {
            Self::lemma_tx_insert_inv(*old(self), *self, hash, parent);
        }
    }

    /// Recording a fresh parent edge and growing the unreferred
    /// transaction set preserves the invariant.
    #[verifier::rlimit(100)]
    proof fn lemma_tx_insert_inv(pre: BlockChain, post: BlockChain, hash: H256, parent: H256)
        requires
            pre.inv(),
            !pre.known(hash),
            post.parents() == pre.parents().insert(hash, parent),
            post.spec_unreferred_transactions() == pre.spec_unreferred_transactions().insert(hash),
            post.proposer_levels() == pre.proposer_levels(),
            post.voter_levels() == pre.voter_levels(),
            post.voter_chains() == pre.voter_chains(),
            post.voted_levels() == pre.voted_levels(),
            post.tree() == pre.tree(),
            post.votes() == pre.votes(),
            post.leaders() == pre.leaders(),
            post.orders() == pre.orders(),
            post.timestamps() == pre.timestamps(),
            post.difficulties() == pre.difficulties(),
            post.vote_edges() == pre.vote_edges(),
            post.voter_parents() == pre.voter_parents(),
            post.tx_refs() == pre.tx_refs(),
            post.proposer_refs() == pre.proposer_refs(),
            post.spec_best_proposer() == pre.spec_best_proposer(),
            post.spec_best_voters() == pre.spec_best_voters(),
            post.spec_unreferred_proposers() == pre.spec_unreferred_proposers(),
            post.spec_unconfirmed_proposers() == pre.spec_unconfirmed_proposers(),
            post.spec_ledger_tip() == pre.spec_ledger_tip(),
            post.spec_num_chains() == pre.spec_num_chains(),
            post.tables_wf(),
        ensures
            post.inv(),
    {
        assert(post.proposer_graph_wf()) by {
            assert forall|h: H256|
                #[trigger] post.proposer_levels().dom().contains(h) && h
                    != proposer_genesis_spec() implies {
                &&& post.proposer_levels()[h] >= 1
                &&& post.parents().dom().contains(h)
                &&& post.proposer_levels().dom().contains(post.parents()[h])
                &&& post.proposer_levels()[post.parents()[h]] + 1 == post.proposer_levels()[h]
                &&& post.timestamps().dom().contains(h)
            } by {
                assert(h != hash);
                assert(post.parents()[h] == pre.parents()[h]);
            }
        }
        assert(post.proposer_tree_wf());
        assert(post.proposer_best_wf());
        assert(post.voter_graph_wf()) by {
            assert forall|v: H256, i: int|
                post.voter_levels().dom().contains(v) && 0 <= i
                    < post.vote_edges()[v].len() implies post.proposer_levels().dom().contains(
                #[trigger] post.vote_edges()[v][i],
            ) by {
                assert(pre.vote_edges()[v][i] == post.vote_edges()[v][i]);
            }
        }
        assert(post.voter_best_wf());
        assert(post.votes_wf());
        assert(post.leader_wf());
        Self::lemma_leader_complete_same(pre, post);
        assert(post.ledger_wf()) by {
            assert forall|h: H256|
                #[trigger] post.proposer_levels().dom().contains(h) implies (
            post.spec_unconfirmed_proposers().contains(h) <==> !post.confirmed(h)) by {
                if pre.confirmed(h) {
                    let l = choose|l: u64| pre.confirmed_at(l, h);
                    assert(post.confirmed_at(l, h));
                }
                if post.confirmed(h) {
                    let l = choose|l: u64| post.confirmed_at(l, h);
                    assert(pre.confirmed_at(l, h));
                }
            }
            assert forall|l1: u64, l2: u64, h: H256|
                #[trigger] post.confirmed_at(l1, h) && #[trigger] post.confirmed_at(l2, h)
                implies l1 == l2 by {
                assert(pre.confirmed_at(l1, h) && pre.confirmed_at(l2, h));
            }
        }
    }
}

} // verus!

verus! {

impl BlockChain {
    /// Compute the difficulty of a new proposer block at `self_level`
    /// whose parent is `parent`, before anything is written.
    #[verifier::rlimit(100)]
    fn compute_proposer_difficulty(&self, parent: &H256, timestamp: u64, self_level: u64) -> (r:
        H256)
        requires
            self.inv_core(),
            self.proposer_levels().dom().contains(*parent),
            self.proposer_levels()[*parent] + 1 == self_level,
        ensures
            crate::hash::h256_val(r) == Self::new_proposer_difficulty_val(
                *self,
                *parent,
                timestamp,
                self_level,
            ),
    {
        let parent_difficulty = self.mining_difficulty.at(parent);
        if self_level % DIFFICULTY_CHANGE_INTERVAL != 0 {
            return parent_difficulty;
        }
        let parent_level = self.proposer_node_level.at(parent);
        proof {
            assert(self_level >= DIFFICULTY_CHANGE_INTERVAL) by {
                assert(self_level != 0);
                assert(self_level % DIFFICULTY_CHANGE_INTERVAL == 0);
                assert(self_level >= DIFFICULTY_CHANGE_INTERVAL) by (nonlinear_arith)
                    requires
                        self_level % DIFFICULTY_CHANGE_INTERVAL == 0,
                        self_level != 0,
                        self_level >= 0,
                ;
            }
        }
        let mut ancestor: H256 = *parent;
        let mut step: u64 = 0;
        #[verifier::loop_isolation(false)]
        while step < DIFFICULTY_CHANGE_INTERVAL - 2
            invariant
                0 <= step <= DIFFICULTY_CHANGE_INTERVAL - 2,
                parent_level == self.proposer_levels()[*parent],
                parent_level == self_level - 1,
                ancestor == self.ancestor_at(*parent, step as nat),
                self.proposer_levels().dom().contains(ancestor),
                self.proposer_levels()[ancestor] == parent_level - step,
            decreases DIFFICULTY_CHANGE_INTERVAL - 2 - step,
        {
            proof {
                assert(self.proposer_levels()[ancestor] >= 2);
                assert(ancestor != proposer_genesis_spec());
                self.lemma_ancestor_unfold(*parent, step as nat);
            }
            ancestor = self.parent_neighbor.at(&ancestor);
            step += 1;
        }
        proof {
            assert(self.proposer_levels()[ancestor] >= 1);
            assert(ancestor != proposer_genesis_spec());
        }
        let ancestor_timestamp = self.proposer_block_timestamp.at(&ancestor);
        let elapsed: u64 = if timestamp >= ancestor_timestamp {
            timestamp - ancestor_timestamp
        } else {
            0
        };
        retarget_difficulty(&parent_difficulty, elapsed)
    }

    fn insert_proposer_block(
        &mut self,
        hash: H256,
        parent: H256,
        timestamp: u64,
        content: &crate::block::proposer::Content,
    )
        requires
            old(self).inv(),
            !old(self).known(hash),
            old(self).proposer_levels().dom().contains(parent),
            old(self).proposer_levels()[parent] < u64::MAX - 1,
        ensures
            final(self).inv(),
            Self::proposer_inserted(*old(self), *final(self), hash, parent, timestamp, *content),
    {
        let parent_level = self.proposer_node_level.at(&parent);
        let self_level = parent_level + 1;
        let new_difficulty = self.compute_proposer_difficulty(&parent, timestamp, self_level);

        // unreferred bookkeeping: the cited blocks leave, the new one enters
        let nrefs = content.proposer_refs.len();
        let mut i: usize = 0;
        proof {
            assert(content.proposer_refs@.subrange(0, 0).to_set() =~= Set::<H256>::empty());
            assert(self.spec_unreferred_proposers().difference(Set::empty())
                =~= self.spec_unreferred_proposers());
        }
        #[verifier::loop_isolation(false)]
        while i < nrefs
            invariant
                0 <= i <= nrefs,
                self.unreferred_proposers.wf(),
                self.spec_unreferred_proposers() == old(
                    self,
                ).spec_unreferred_proposers().difference(
                    content.proposer_refs@.subrange(0, i as int).to_set(),
                ),
                *self == (BlockChain {
                    unreferred_proposers: self.unreferred_proposers,
                    ..*old(self)
                }),
            decreases nrefs - i,
        {
            self.unreferred_proposers.remove(&content.proposer_refs[i]);
            proof {
                let sub1 = content.proposer_refs@.subrange(0, i + 1);
                assert(sub1.drop_last() =~= content.proposer_refs@.subrange(0, i as int));
                sub1.lemma_push_to_set_commute(content.proposer_refs@[i as int]);
                assert(sub1.drop_last().push(sub1.last()) =~= sub1);
                assert(sub1.drop_last().to_set().insert(content.proposer_refs@[i as int])
                    =~= sub1.to_set());
                assert(self.spec_unreferred_proposers() == old(
                    self,
                ).spec_unreferred_proposers().difference(sub1.to_set())) by {
                    assert(old(self).spec_unreferred_proposers().difference(
                        sub1.drop_last().to_set(),
                    ).remove(content.proposer_refs@[i as int]) =~= old(
                        self,
                    ).spec_unreferred_proposers().difference(sub1.to_set()));
                }
            }
            i += 1;
        }
        proof {
            assert(content.proposer_refs@.subrange(0, nrefs as int) =~= content.proposer_refs@);
        }
        self.unreferred_proposers.remove(&parent);
        self.unreferred_proposers.insert(hash);

        let ntx = content.transaction_refs.len();
        let mut j: usize = 0;
        proof {
            assert(content.transaction_refs@.subrange(0, 0).to_set() =~= Set::<H256>::empty());
            assert(self.spec_unreferred_transactions().difference(Set::empty())
                =~= self.spec_unreferred_transactions());
        }
        #[verifier::loop_isolation(false)]
        while j < ntx
            invariant
                0 <= j <= ntx,
                self.unreferred_transactions.wf(),
                self.spec_unreferred_transactions() == old(
                    self,
                ).spec_unreferred_transactions().difference(
                    content.transaction_refs@.subrange(0, j as int).to_set(),
                ),
                *self == (BlockChain {
                    unreferred_proposers: self.unreferred_proposers,
                    unreferred_transactions: self.unreferred_transactions,
                    ..*old(self)
                }),
                self.unreferred_proposers@ == old(self).spec_unreferred_proposers().difference(
                    content.proposer_refs@.to_set(),
                ).remove(parent).insert(hash),
                self.unreferred_proposers.wf(),
            decreases ntx - j,
        {
            self.unreferred_transactions.remove(&content.transaction_refs[j]);
            proof {
                let sub1 = content.transaction_refs@.subrange(0, j + 1);
                assert(sub1.drop_last() =~= content.transaction_refs@.subrange(0, j as int));
                assert(sub1.drop_last().push(sub1.last()) =~= sub1);
                sub1.drop_last().lemma_push_to_set_commute(sub1.last());
                assert(self.spec_unreferred_transactions() == old(
                    self,
                ).spec_unreferred_transactions().difference(sub1.to_set())) by {
                    assert(old(self).spec_unreferred_transactions().difference(
                        sub1.drop_last().to_set(),
                    ).remove(content.transaction_refs@[j as int]) =~= old(
                        self,
                    ).spec_unreferred_transactions().difference(sub1.to_set()));
                }
            }
            j += 1;
        }
        proof {
            assert(content.transaction_refs@.subrange(0, ntx as int)
                =~= content.transaction_refs@);
        }

        // graph writes
        self.parent_neighbor.insert(hash, parent);
        let mut refed_proposer: Vec<H256> = Vec::new();
        refed_proposer.push(parent);
        let mut k: usize = 0;
        #[verifier::loop_isolation(false)]
        while k < nrefs
            invariant
                0 <= k <= nrefs,
                refed_proposer@ == seq![parent] + content.proposer_refs@.subrange(0, k as int),
            decreases nrefs - k,
        {
            refed_proposer.push(content.proposer_refs[k]);
            proof {
                assert((seq![parent] + content.proposer_refs@.subrange(0, k as int)).push(
                    content.proposer_refs@[k as int],
                ) =~= seq![parent] + content.proposer_refs@.subrange(0, k + 1));
            }
            k += 1;
        }
        proof {
            assert(seq![parent] + content.proposer_refs@.subrange(0, nrefs as int) =~= seq![parent]
                + content.proposer_refs@);
        }
        self.proposer_ref_neighbor.insert(hash, refed_proposer);
        self.transaction_ref_neighbor.insert(hash, clone_items(&content.transaction_refs));
        self.proposer_node_level.insert(hash, self_level);
        let mut level_list: Vec<H256> = match self.proposer_tree_level.get(self_level) {
            Some(v) => v,
            None => Vec::new(),
        };
        level_list.push(hash);
        self.proposer_tree_level.insert(self_level, level_list);
        self.mining_difficulty.insert(hash, new_difficulty);
        self.proposer_block_timestamp.insert(hash, timestamp);
        if self_level > self.proposer_best.1 {
            self.proposer_best = (hash, self_level);
        }
        self.unconfirmed_proposers.insert(hash);
        proof {
            Self::lemma_proposer_insert_inv(
                *old(self),
                *self,
                hash,
                parent,
                timestamp,
                *content,
            );
        }
    }

    /// Inserting a proposer block as `proposer_inserted` describes
    /// preserves the invariant.
    #[verifier::rlimit(100)]
    proof fn lemma_proposer_insert_inv(
        pre: BlockChain,
        post: BlockChain,
        hash: H256,
        parent: H256,
        timestamp: u64,
        c: crate::block::proposer::Content,
    )
        requires
            pre.inv(),
            !pre.known(hash),
            pre.proposer_levels().dom().contains(parent),
            pre.proposer_levels()[parent] < u64::MAX - 1,
            Self::proposer_inserted(pre, post, hash, parent, timestamp, c),
            post.tables_wf(),
        ensures
            post.inv(),
    {
        let l = Self::new_proposer_level(pre, parent);
        assert(!pre.proposer_levels().dom().contains(hash));
        assert(!pre.voter_levels().dom().contains(hash));
        assert(hash != proposer_genesis_spec());
        let new_list = if pre.tree().dom().contains(l) {
            pre.tree()[l].push(hash)
        } else {
            seq![hash]
        };
        assert(post.proposer_graph_wf()) by {
            assert forall|h: H256|
                #[trigger] post.proposer_levels().dom().contains(h) && h
                    != proposer_genesis_spec() implies {
                &&& post.proposer_levels()[h] >= 1
                &&& post.parents().dom().contains(h)
                &&& post.proposer_levels().dom().contains(post.parents()[h])
                &&& post.proposer_levels()[post.parents()[h]] + 1 == post.proposer_levels()[h]
                &&& post.timestamps().dom().contains(h)
            } by {
                if h != hash {
                    assert(pre.proposer_levels().dom().contains(h));
                    assert(post.parents()[h] == pre.parents()[h]);
                    assert(pre.parents()[h] != hash);
                }
            }
        }
        assert(post.proposer_tree_wf()) by {
            assert forall|lv: u64| #[trigger] post.tree().dom().contains(lv) implies {
                &&& post.tree()[lv].len() > 0
                &&& post.tree()[lv].no_duplicates()
                &&& lv <= post.proposer_best.1
                &&& forall|i: int|
                    0 <= i < post.tree()[lv].len() ==> {
                        &&& post.proposer_levels().dom().contains(#[trigger] post.tree()[lv][i])
                        &&& post.proposer_levels()[post.tree()[lv][i]] == lv
                    }
            } by {
                if lv == l {
                    if pre.tree().dom().contains(l) {
                        assert(!pre.tree()[l].contains(hash)) by {
                            if pre.tree()[l].contains(hash) {
                                let w = choose|w: int|
                                    0 <= w < pre.tree()[l].len() && pre.tree()[l][w] == hash;
                                assert(pre.proposer_levels().dom().contains(hash));
                            }
                        }
                        assert(post.tree()[l] == pre.tree()[l].push(hash));
                        assert forall|a: int, b: int|
                            0 <= a < b < post.tree()[l].len()
                            implies post.tree()[l][a] != post.tree()[l][b] by {
                            if b < post.tree()[l].len() - 1 {
                                assert(pre.tree()[l][a] == post.tree()[l][a]);
                            } else {
                                assert(post.tree()[l][b] == hash);
                                assert(pre.tree()[l].contains(pre.tree()[l][a])) by {
                                    assert(pre.tree()[l][a] == post.tree()[l][a]);
                                }
                            }
                        }
                    }
                    assert(l <= post.proposer_best.1);
                } else {
                    assert(post.tree()[lv] == pre.tree()[lv]);
                    assert(lv <= pre.proposer_best.1);
                    assert(pre.proposer_best.1 <= post.proposer_best.1);
                    assert forall|i: int| 0 <= i < post.tree()[lv].len() implies {
                        &&& post.proposer_levels().dom().contains(#[trigger] post.tree()[lv][i])
                        &&& post.proposer_levels()[post.tree()[lv][i]] == lv
                    } by {
                        assert(pre.tree()[lv][i] == post.tree()[lv][i]);
                        assert(pre.tree()[lv][i] != hash);
                    }
                }
            }
            assert forall|h: H256| #[trigger] post.proposer_levels().dom().contains(h) implies {
                &&& post.tree().dom().contains(post.proposer_levels()[h])
                &&& post.tree()[post.proposer_levels()[h]].contains(h)
            } by {
                if h == hash {
                    assert(post.tree()[l][new_list.len() - 1] == hash);
                } else {
                    assert(pre.tree()[pre.proposer_levels()[h]].contains(h));
                    let lv = pre.proposer_levels()[h];
                    let w = choose|w: int| 0 <= w < pre.tree()[lv].len() && pre.tree()[lv][w] == h;
                    if lv == l {
                        assert(post.tree()[l][w] == h);
                    } else {
                        assert(post.tree()[lv] == pre.tree()[lv]);
                    }
                }
            }
            assert forall|lv: u64| lv <= post.proposer_best.1 implies #[trigger] post.tree()
                .dom().contains(lv) by {
                if l > pre.proposer_best.1 {
                    assert(post.proposer_best.1 == l);
                    if lv < l {
                        assert(lv <= pre.proposer_best.1);
                    }
                } else {
                    assert(post.proposer_best.1 == pre.proposer_best.1);
                }
            }
        }
        assert(post.proposer_best_wf()) by {
            if l > pre.proposer_best.1 {
                assert(!pre.tree().dom().contains(l));
                assert(post.tree()[l] == seq![hash]);
            } else {
                if pre.proposer_best.1 == l {
                    assert(post.tree()[l][0] == pre.tree()[l][0]);
                } else {
                    assert(post.tree()[pre.proposer_best.1] == pre.tree()[pre.proposer_best.1]);
                }
                assert(post.proposer_levels()[post.proposer_best.0]
                    == pre.proposer_levels()[pre.proposer_best.0]) by {
                    assert(pre.proposer_best.0 != hash);
                }
            }
        }
        assert(post.voter_graph_wf()) by {
            assert forall|v: H256, i: int|
                post.voter_levels().dom().contains(v) && 0 <= i
                    < post.vote_edges()[v].len() implies post.proposer_levels().dom().contains(
                #[trigger] post.vote_edges()[v][i],
            ) by {
                assert(pre.vote_edges()[v][i] == post.vote_edges()[v][i]);
            }
        }
        assert(post.voter_best_wf());
        assert(post.votes_wf());
        assert(post.leader_wf()) by {
            assert forall|lv: u64| #[trigger] post.leaders().dom().contains(lv) implies {
                &&& post.proposer_levels().dom().contains(post.leaders()[lv])
                &&& post.proposer_levels()[post.leaders()[lv]] == lv
                &&& post.votes().dom().contains(post.leaders()[lv])
                &&& post.votes()[post.leaders()[lv]].len() > post.threshold()
            } by {
                assert(pre.leaders().dom().contains(lv));
                assert(pre.leaders()[lv] != hash);
            }
        }
        assert(post.leader_exact()) by {
            assert forall|lv: u64| #[trigger] post.leaders().dom().contains(lv)
                implies post.elected(lv) == Some(post.leaders()[lv]) by {
                assert(pre.leaders().dom().contains(lv));
                assert(pre.elected(lv) == Some(pre.leaders()[lv]));
                assert(pre.proposer_levels()[pre.leaders()[lv]] == lv);
                assert(pre.tree().dom().contains(lv));
                if lv == l {
                    assert(post.tree()[l] == pre.tree()[l].push(hash));
                    assert(!post.votes().dom().contains(hash)) by {
                        if post.votes().dom().contains(hash) {
                            assert(pre.proposer_levels().dom().contains(hash));
                        }
                    }
                    assert(post.tree()[l].last() == hash);
                    assert(post.tree()[l].drop_last() =~= pre.tree()[l]);
                } else {
                    assert(post.tree()[lv] == pre.tree()[lv]);
                }
            }
        }
        assert(post.leader_complete()) by {
            assert forall|lv: u64| #[trigger] post.has_qualified(lv)
                implies post.leaders().dom().contains(lv) by {
                let i = choose|i: int|
                    0 <= i < post.tree()[lv].len() && post.qualified(
                        #[trigger] post.tree()[lv][i],
                    );
                let b = post.tree()[lv][i];
                assert(pre.votes().dom().contains(b));
                assert(pre.proposer_levels().dom().contains(b));
                assert(b != hash);
                if lv == l {
                    assert(pre.tree().dom().contains(l));
                    assert(i < pre.tree()[l].len()) by {
                        if i == post.tree()[l].len() - 1 {
                            assert(post.tree()[l][i] == hash);
                        }
                    }
                    assert(pre.tree()[l][i] == b);
                } else {
                    assert(post.tree()[lv] == pre.tree()[lv]);
                }
                assert(pre.qualified(b));
                assert(pre.has_qualified(lv));
            }
        }
        assert(post.ledger_wf()) by {
            assert forall|h: H256|
                #[trigger] post.proposer_levels().dom().contains(h) implies (
            post.spec_unconfirmed_proposers().contains(h) <==> !post.confirmed(h)) by {
                if h == hash {
                    assert(post.spec_unconfirmed_proposers().contains(hash));
                    if post.confirmed(hash) {
                        let lv = choose|lv: u64| post.confirmed_at(lv, hash);
                        assert(pre.confirmed_at(lv, hash));
                        assert(pre.orders()[lv].contains(hash));
                        let w = choose|w: int|
                            0 <= w < pre.orders()[lv].len() && pre.orders()[lv][w] == hash;
                        assert(pre.proposer_levels().dom().contains(hash));
                    }
                } else {
                    assert(pre.proposer_levels().dom().contains(h));
                    if pre.confirmed(h) {
                        let lv = choose|lv: u64| pre.confirmed_at(lv, h);
                        assert(post.confirmed_at(lv, h));
                    }
                    if post.confirmed(h) {
                        let lv = choose|lv: u64| post.confirmed_at(lv, h);
                        assert(pre.confirmed_at(lv, h));
                    }
                }
            }
            assert forall|l1: u64, l2: u64, h: H256|
                #[trigger] post.confirmed_at(l1, h) && #[trigger] post.confirmed_at(l2, h)
                implies l1 == l2 by {
                assert(pre.confirmed_at(l1, h) && pre.confirmed_at(l2, h));
            }
        }
    }
}

} // verus!

verus! {

impl BlockChain {
    /// What inserting a voter block always changes, whatever its votes do:
    /// the graph edges and per-voter metadata are recorded, the block's
    /// deepest voted level is its proposer parent's level, the chain is
    /// its voter parent's, and the chain's best tip advances exactly when
    /// the new level is strictly higher. The proposer-side tables that
    /// voting cannot touch are unchanged.
    pub open spec fn voter_inserted_meta(
        pre: BlockChain,
        post: BlockChain,
        hash: H256,
        parent: H256,
        c: crate::block::voter::Content,
    ) -> bool {
        let chain = pre.voter_chains()[c.voter_parent];
        let l = (pre.voter_levels()[c.voter_parent] + 1) as u64;
        &&& post.parents() == pre.parents().insert(hash, parent)
        &&& post.voter_parents() == pre.voter_parents().insert(hash, c.voter_parent)
        &&& post.voter_levels() == pre.voter_levels().insert(hash, l)
        &&& post.voter_chains() == pre.voter_chains().insert(hash, chain)
        &&& post.voted_levels() == pre.voted_levels().insert(
            hash,
            pre.proposer_levels()[parent],
        )
        &&& post.vote_edges() == pre.vote_edges().insert(hash, c.votes@)
        &&& post.spec_best_voters() == if l > pre.spec_best_voters()[chain as int].1 {
            pre.spec_best_voters().update(chain as int, (hash, l))
        } else {
            pre.spec_best_voters()
        }
        &&& post.proposer_levels() == pre.proposer_levels()
        &&& post.tree() == pre.tree()
        &&& post.tx_refs() == pre.tx_refs()
        &&& post.proposer_refs() == pre.proposer_refs()
        &&& post.timestamps() == pre.timestamps()
        &&& post.difficulties() == pre.difficulties()
        &&& post.spec_best_proposer() == pre.spec_best_proposer()
        &&& post.spec_unreferred_proposers() == pre.spec_unreferred_proposers()
        &&& post.spec_unreferred_transactions() == pre.spec_unreferred_transactions()
        &&& post.spec_num_chains() == pre.spec_num_chains()
    }

    /// A voter block on a side chain, or one that merely catches up,
    /// changes no vote set and no ledger state.
    pub open spec fn voter_no_reorg(pre: BlockChain, post: BlockChain) -> bool {
        &&& post.votes() == pre.votes()
        &&& post.leaders() == pre.leaders()
        &&& post.orders() == pre.orders()
        &&& post.spec_unconfirmed_proposers() == pre.spec_unconfirmed_proposers()
        &&& post.spec_ledger_tip() == pre.spec_ledger_tip()
    }

    /// Record a voter block's metadata and advance the chain's best tip
    /// when the new block is strictly higher. Returns the previous best.
    fn insert_voter_metadata(
        &mut self,
        hash: H256,
        parent: H256,
        content: &crate::block::voter::Content,
    ) -> (r: (H256, u64, u16, u64))
        requires
            old(self).inv(),
            !old(self).known(hash),
            old(self).voter_levels().dom().contains(content.voter_parent),
            old(self).voter_levels()[content.voter_parent] < u64::MAX - 1,
            old(self).proposer_levels().dom().contains(parent),
            forall|i: int|
                0 <= i < content.votes@.len() ==> old(self).proposer_levels().dom().contains(
                    #[trigger] content.votes@[i],
                ),
        ensures
            final(self).inv(),
            Self::voter_inserted_meta(*old(self), *final(self), hash, parent, *content),
            Self::voter_no_reorg(*old(self), *final(self)),
            ({
                let chain = old(self).voter_chains()[content.voter_parent];
                let l = (old(self).voter_levels()[content.voter_parent] + 1) as u64;
                r == (
                    old(self).spec_best_voters()[chain as int].0,
                    old(self).spec_best_voters()[chain as int].1,
                    chain,
                    l,
                )
            }),
    {
        let voter_parent_hash = content.voter_parent;
        let voter_parent_level = self.voter_node_level.at(&voter_parent_hash);
        let voter_parent_chain = self.voter_node_chain.at(&voter_parent_hash);
        let self_level = voter_parent_level + 1;
        let self_chain = voter_parent_chain;
        let proposer_parent_level = self.proposer_node_level.at(&parent);

        self.parent_neighbor.insert(hash, parent);
        self.voter_parent_neighbor.insert(hash, voter_parent_hash);
        self.voter_node_level.insert(hash, self_level);
        self.voter_node_chain.insert(hash, self_chain);
        self.voter_node_voted_level.insert(hash, proposer_parent_level);
        self.vote_neighbor.insert(hash, clone_items(&content.votes));

        let previous_best = self.voter_best[self_chain as usize];
        if self_level > previous_best.1 {
            self.voter_best[self_chain as usize] = (hash, self_level);
            proof {
                assert(self.voter_best@ =~= old(self).voter_best@.update(
                    self_chain as int,
                    (hash, self_level),
                ));
            }
        } else {
            proof {
                assert(self.voter_best@ =~= old(self).voter_best@);
            }
        }
        proof {
            Self::lemma_voter_meta_inv(*old(self), *self, hash, parent, *content);
        }
        (previous_best.0, previous_best.1, self_chain, self_level)
    }

    /// Recording a voter block's metadata as `voter_inserted_meta`
    /// describes preserves the invariant.
    #[verifier::rlimit(100)]
    proof fn lemma_voter_meta_inv(
        pre: BlockChain,
        post: BlockChain,
        hash: H256,
        parent: H256,
        c: crate::block::voter::Content,
    )
        requires
            pre.inv(),
            !pre.known(hash),
            pre.voter_levels().dom().contains(c.voter_parent),
            pre.voter_levels()[c.voter_parent] < u64::MAX - 1,
            pre.proposer_levels().dom().contains(parent),
            forall|i: int|
                0 <= i < c.votes@.len() ==> pre.proposer_levels().dom().contains(
                    #[trigger] c.votes@[i],
                ),
            Self::voter_inserted_meta(pre, post, hash, parent, c),
            Self::voter_no_reorg(pre, post),
            post.tables_wf(),
        ensures
            post.inv(),
    {
        let chain = pre.voter_chains()[c.voter_parent];
        let l = (pre.voter_levels()[c.voter_parent] + 1) as u64;
        assert(!pre.proposer_levels().dom().contains(hash));
        assert(!pre.voter_levels().dom().contains(hash));
        assert((chain as int) < pre.spec_num_chains() as int);
        assert(hash != proposer_genesis_spec());
        assert(post.proposer_graph_wf()) by {
            assert forall|h: H256|
                #[trigger] post.proposer_levels().dom().contains(h) && h
                    != proposer_genesis_spec() implies {
                &&& post.proposer_levels()[h] >= 1
                &&& post.parents().dom().contains(h)
                &&& post.proposer_levels().dom().contains(post.parents()[h])
                &&& post.proposer_levels()[post.parents()[h]] + 1 == post.proposer_levels()[h]
                &&& post.timestamps().dom().contains(h)
            } by {
                assert(h != hash);
                assert(post.parents()[h] == pre.parents()[h]);
            }
        }
        assert(post.proposer_tree_wf());
        assert(post.proposer_best_wf());
        assert(post.voter_graph_wf()) by {
            assert(hash != voter_genesis_spec(chain));
            assert forall|cc: u16| (cc as int) < post.spec_num_chains() as int implies {
                &&& post.voter_levels().dom().contains(#[trigger] voter_genesis_spec(cc))
                &&& post.voter_levels()[voter_genesis_spec(cc)] == 0
                &&& post.voter_chains().dom().contains(voter_genesis_spec(cc))
                &&& post.voter_chains()[voter_genesis_spec(cc)] == cc
            } by {
                assert(pre.voter_levels().dom().contains(voter_genesis_spec(cc)));
                assert(voter_genesis_spec(cc) != hash);
            }
            assert forall|v: H256| #[trigger] post.voter_levels().dom().contains(v) implies {
                &&& post.voter_chains().dom().contains(v)
                &&& (post.voter_chains()[v] as int) < post.spec_num_chains() as int
                &&& post.voted_levels().dom().contains(v)
                &&& post.vote_edges().dom().contains(v)
                &&& post.parents().dom().contains(v)
                &&& (post.voter_levels()[v] == 0 <==> v == voter_genesis_spec(
                    post.voter_chains()[v],
                ))
            } by {
                if v == hash {
                    assert(post.voter_levels()[hash] == l);
                    assert(l >= 1);
                    assert(hash != voter_genesis_spec(post.voter_chains()[hash])) by {
                        assert(pre.voter_levels().dom().contains(voter_genesis_spec(chain)));
                    }
                } else {
                    assert(pre.voter_levels().dom().contains(v));
                    if pre.voter_levels()[v] == 0 {
                        assert(v == voter_genesis_spec(pre.voter_chains()[v]));
                    }
                }
            }
            assert forall|v: H256|
                #[trigger] post.voter_levels().dom().contains(v) && post.voter_levels()[v]
                    >= 1 implies {
                &&& post.voter_parents().dom().contains(v)
                &&& post.voter_levels().dom().contains(post.voter_parents()[v])
                &&& post.voter_levels()[post.voter_parents()[v]] + 1 == post.voter_levels()[v]
                &&& post.voter_chains()[post.voter_parents()[v]] == post.voter_chains()[v]
            } by {
                if v != hash {
                    assert(pre.voter_levels().dom().contains(v));
                    assert(post.voter_parents()[v] == pre.voter_parents()[v]);
                    assert(pre.voter_parents()[v] != hash);
                } else {
                    assert(post.voter_parents()[hash] == c.voter_parent);
                    assert(c.voter_parent != hash);
                }
            }
            assert forall|v: H256, i: int|
                post.voter_levels().dom().contains(v) && 0 <= i
                    < post.vote_edges()[v].len() implies post.proposer_levels().dom().contains(
                #[trigger] post.vote_edges()[v][i],
            ) by {
                if v != hash {
                    assert(pre.voter_levels().dom().contains(v));
                    assert(pre.vote_edges()[v][i] == post.vote_edges()[v][i]);
                } else {
                    assert(post.vote_edges()[hash] == c.votes@);
                }
            }
        }
        assert(post.voter_best_wf()) by {
            assert forall|cc: int| 0 <= cc < post.voter_best@.len() implies {
                &&& post.voter_levels().dom().contains((#[trigger] post.voter_best@[cc]).0)
                &&& post.voter_levels()[post.voter_best@[cc].0] == post.voter_best@[cc].1
                &&& post.voter_chains()[post.voter_best@[cc].0] as int == cc
            } by {
                if l > pre.spec_best_voters()[chain as int].1 && cc == chain as int {
                    assert(post.voter_best@[cc] == (hash, l));
                } else {
                    assert(post.voter_best@[cc] == pre.voter_best@[cc]);
                    assert(pre.voter_best@[cc].0 != hash);
                }
            }
            assert forall|v: H256|
                #[trigger] post.voter_levels().dom().contains(v)
                implies post.voter_levels()[v]
                    <= post.voter_best@[post.voter_chains()[v] as int].1 by {
                if v == hash {
                    if l > pre.spec_best_voters()[chain as int].1 {
                    } else {
                        assert(post.voter_best@[chain as int] == pre.voter_best@[chain as int]);
                    }
                } else {
                    assert(pre.voter_levels().dom().contains(v));
                    let vc = pre.voter_chains()[v] as int;
                    assert(pre.voter_levels()[v] <= pre.voter_best@[vc].1);
                    if l > pre.spec_best_voters()[chain as int].1 && vc == chain as int {
                        assert(post.voter_best@[vc].1 == l);
                        assert(pre.voter_best@[vc].1 <= l);
                    } else {
                        assert(post.voter_best@[vc] == pre.voter_best@[vc]);
                    }
                }
            }
        }
        assert(post.votes_wf());
        assert(post.leader_wf());
        Self::lemma_leader_complete_same(pre, post);
        assert(post.ledger_wf()) by {
            assert forall|h: H256|
                #[trigger] post.proposer_levels().dom().contains(h) implies (
            post.spec_unconfirmed_proposers().contains(h) <==> !post.confirmed(h)) by {
                if pre.confirmed(h) {
                    let lv = choose|lv: u64| pre.confirmed_at(lv, h);
                    assert(post.confirmed_at(lv, h));
                }
                if post.confirmed(h) {
                    let lv = choose|lv: u64| post.confirmed_at(lv, h);
                    assert(pre.confirmed_at(lv, h));
                }
            }
            assert forall|l1: u64, l2: u64, h: H256|
                #[trigger] post.confirmed_at(l1, h) && #[trigger] post.confirmed_at(l2, h)
                implies l1 == l2 by {
                assert(pre.confirmed_at(l1, h) && pre.confirmed_at(l2, h));
            }
        }
    }
}

} // verus!

verus! {

impl BlockChain {
    /// The votes cast by a voter block and its next `k - 1` voter
    /// ancestors, each tagged with the voter level it was cast at.
    pub open spec fn branch_votes(
        vp: Map<H256, H256>,
        ve: Map<H256, Seq<H256>>,
        vl: Map<H256, u64>,
        v: H256,
        k: nat,
    ) -> Seq<(H256, u64)>
        decreases k,
    {
        if k == 0 {
            Seq::empty()
        } else {
            ve[v].map(|i: int, p: H256| (p, vl[v])) + Self::branch_votes(
                vp,
                ve,
                vl,
                vp[v],
                (k - 1) as nat,
            )
        }
    }

    /// The voter block `k` voter-parent links above `v`.
    pub open spec fn walk_up(vp: Map<H256, H256>, v: H256, k: nat) -> H256
        decreases k,
    {
        if k == 0 {
            v
        } else {
            Self::walk_up(vp, vp[v], (k - 1) as nat)
        }
    }

    /// How many simultaneous voter-parent steps two blocks take before
    /// they coincide, within `fuel` steps.
    pub open spec fn meet_steps(vp: Map<H256, H256>, a: H256, b: H256, fuel: nat) -> nat
        decreases fuel,
    {
        if a == b || fuel == 0 {
            0
        } else {
            1 + Self::meet_steps(vp, vp[a], vp[b], (fuel - 1) as nat)
        }
    }

    /// The votes gained by switching a chain's main chain from `from0` to
    /// the strictly higher `to0`: those of `to0`'s branch down to the
    /// blocks' common ancestor.
    pub open spec fn reorg_added(
        vp: Map<H256, H256>,
        ve: Map<H256, Seq<H256>>,
        vl: Map<H256, u64>,
        to0: H256,
        from0: H256,
    ) -> Seq<(H256, u64)> {
        let climb = (vl[to0] - vl[from0]) as nat;
        let j = Self::meet_steps(vp, Self::walk_up(vp, to0, climb), from0, vl[from0] as nat);
        Self::branch_votes(vp, ve, vl, to0, climb + j)
    }

    /// The votes lost by that switch: those of `from0`'s branch down to
    /// the common ancestor.
    pub open spec fn reorg_removed(
        vp: Map<H256, H256>,
        ve: Map<H256, Seq<H256>>,
        vl: Map<H256, u64>,
        to0: H256,
        from0: H256,
    ) -> Seq<(H256, u64)> {
        let climb = (vl[to0] - vl[from0]) as nat;
        let j = Self::meet_steps(vp, Self::walk_up(vp, to0, climb), from0, vl[from0] as nat);
        Self::branch_votes(vp, ve, vl, from0, j)
    }

    proof fn lemma_walk_up_unfold(vp: Map<H256, H256>, v: H256, k: nat)
        ensures
            Self::walk_up(vp, v, k + 1) == vp[Self::walk_up(vp, v, k)],
        decreases k,
    {
        assert(Self::walk_up(vp, v, k + 1) == Self::walk_up(vp, vp[v], k));
        if k == 0 {
            assert(Self::walk_up(vp, v, 1) == Self::walk_up(vp, vp[v], 0));
        } else {
            Self::lemma_walk_up_unfold(vp, vp[v], (k - 1) as nat);
            assert(Self::walk_up(vp, v, k) == Self::walk_up(vp, vp[v], (k - 1) as nat));
        }
    }

    proof fn lemma_branch_votes_unfold(
        vp: Map<H256, H256>,
        ve: Map<H256, Seq<H256>>,
        vl: Map<H256, u64>,
        v: H256,
        k: nat,
    )
        ensures
            Self::branch_votes(vp, ve, vl, v, k + 1) =~= Self::branch_votes(vp, ve, vl, v, k)
                + ve[Self::walk_up(vp, v, k)].map(
                |i: int, p: H256| (p, vl[Self::walk_up(vp, v, k)]),
            ),
        decreases k,
    {
        let tag = ve[v].map(|i: int, p: H256| (p, vl[v]));
        if k == 0 {
            assert(Self::branch_votes(vp, ve, vl, v, 1) == tag + Self::branch_votes(
                vp,
                ve,
                vl,
                vp[v],
                0,
            ));
            assert(Self::branch_votes(vp, ve, vl, v, 1) =~= tag);
        } else {
            Self::lemma_branch_votes_unfold(vp, ve, vl, vp[v], (k - 1) as nat);
            Self::lemma_walk_up_unfold(vp, vp[v], (k - 1) as nat);
            assert(Self::walk_up(vp, v, k) == Self::walk_up(vp, vp[v], (k - 1) as nat));
            let w = Self::walk_up(vp, v, k);
            let tail = ve[w].map(|i: int, p: H256| (p, vl[w]));
            assert(Self::branch_votes(vp, ve, vl, v, k + 1) == tag + Self::branch_votes(
                vp,
                ve,
                vl,
                vp[v],
                k,
            ));
            assert(Self::branch_votes(vp, ve, vl, vp[v], k) =~= Self::branch_votes(
                vp,
                ve,
                vl,
                vp[v],
                (k - 1) as nat,
            ) + tail);
            assert(tag + (Self::branch_votes(vp, ve, vl, vp[v], (k - 1) as nat) + tail) =~= (tag
                + Self::branch_votes(vp, ve, vl, vp[v], (k - 1) as nat)) + tail);
        }
    }

    /// Walk the abandoned branch and the adopted branch of a voter chain
    /// back to their common ancestor. Returns the votes to add from the
    /// adopted branch and the votes to remove from the abandoned one,
    /// each a `(proposer block, voter level)` pair.
    #[verifier::loop_isolation(false)]
    #[verifier::rlimit(100)]
    fn vote_delta(&self, to0: H256, from0: H256) -> (r: (Vec<(H256, u64)>, Vec<(H256, u64)>))
        requires
            self.inv(),
            self.voter_levels().dom().contains(to0),
            self.voter_levels().dom().contains(from0),
            self.voter_chains()[to0] == self.voter_chains()[from0],
            self.voter_levels()[to0] >= self.voter_levels()[from0],
        ensures
            r.0@ == Self::reorg_added(
                self.voter_parents(),
                self.vote_edges(),
                self.voter_levels(),
                to0,
                from0,
            ),
            r.1@ == Self::reorg_removed(
                self.voter_parents(),
                self.vote_edges(),
                self.voter_levels(),
                to0,
                from0,
            ),
            forall|i: int|
                0 <= i < r.0@.len() ==> self.proposer_levels().dom().contains(
                    #[trigger] r.0@[i].0,
                ),
            forall|i: int|
                0 <= i < r.1@.len() ==> self.proposer_levels().dom().contains(
                    #[trigger] r.1@[i].0,
                ),
    {
        let ghost vp = self.voter_parents();
        let ghost ve = self.vote_edges();
        let ghost vl = self.voter_levels();
        let chain = self.voter_node_chain.at(&to0);
        let mut added: Vec<(H256, u64)> = Vec::new();
        let mut removed: Vec<(H256, u64)> = Vec::new();
        let mut to = to0;
        let mut from = from0;
        let mut to_level = self.voter_node_level.at(&to0);
        let mut from_level = self.voter_node_level.at(&from0);
        let ghost to0_level = to_level;
        let ghost from0_level = from_level;
        while to_level > from_level
            invariant
                to_level >= from_level,
                to_level <= to0_level,
                from == from0,
                from_level == from0_level,
                self.voter_levels().dom().contains(to),
                self.voter_levels()[to] == to_level,
                self.voter_chains()[to] == chain,
                to == Self::walk_up(vp, to0, (to0_level - to_level) as nat),
                added@ == Self::branch_votes(vp, ve, vl, to0, (to0_level - to_level) as nat),
                forall|i: int|
                    0 <= i < added@.len() ==> self.proposer_levels().dom().contains(
                        #[trigger] added@[i].0,
                    ),
            decreases to_level,
        {
            let ghost steps = (to0_level - to_level) as nat;
            let votes = self.vote_neighbor.at(&to);
            let n = votes.len();
            let mut i: usize = 0;
            while i < n
                invariant
                    0 <= i <= n,
                    n == votes.len(),
                    votes@ == ve[to],
                    self.voter_levels().dom().contains(to),
                    to_level == vl[to],
                    added@ == Self::branch_votes(vp, ve, vl, to0, steps) + votes@.subrange(
                        0,
                        i as int,
                    ).map(|k: int, p: H256| (p, vl[to])),
                    forall|j: int|
                        0 <= j < added@.len() ==> self.proposer_levels().dom().contains(
                            #[trigger] added@[j].0,
                        ),
                decreases n - i,
            {
                added.push((votes[i], to_level));
                proof {
                    assert(votes@.subrange(0, i + 1).map(|k: int, p: H256| (p, vl[to]))
                        =~= votes@.subrange(0, i as int).map(
                        |k: int, p: H256| (p, vl[to]),
                    ).push((votes@[i as int], vl[to])));
                }
                i += 1;
            }
            proof {
                assert(votes@.subrange(0, n as int) =~= votes@);
                Self::lemma_branch_votes_unfold(vp, ve, vl, to0, steps);
                assert(added@ =~= Self::branch_votes(vp, ve, vl, to0, steps + 1));
                Self::lemma_walk_up_unfold(vp, to0, steps);
            }
            to = self.voter_parent_neighbor.at(&to);
            to_level = to_level - 1;
        }
        let ghost climb = (to0_level - from0_level) as nat;
        let ghost meet_from = to;
        proof {
            assert(meet_from == Self::walk_up(vp, to0, climb));
        }
        while to != from
            invariant
                self.voter_levels().dom().contains(to),
                self.voter_levels().dom().contains(from),
                self.voter_levels()[to] == to_level,
                self.voter_levels()[from] == to_level,
                from_level == to_level,
                to_level <= from0_level,
                from0_level <= to0_level,
                self.voter_chains()[to] == chain,
                self.voter_chains()[from] == chain,
                to == Self::walk_up(vp, to0, (to0_level - to_level) as nat),
                from == Self::walk_up(vp, from0, (from0_level - from_level) as nat),
                added@ == Self::branch_votes(vp, ve, vl, to0, (to0_level - to_level) as nat),
                removed@ == Self::branch_votes(
                    vp,
                    ve,
                    vl,
                    from0,
                    (from0_level - from_level) as nat,
                ),
                Self::meet_steps(vp, meet_from, from0, from0_level as nat) == (from0_level
                    - from_level) + Self::meet_steps(vp, to, from, to_level as nat),
                forall|i: int|
                    0 <= i < added@.len() ==> self.proposer_levels().dom().contains(
                        #[trigger] added@[i].0,
                    ),
                forall|i: int|
                    0 <= i < removed@.len() ==> self.proposer_levels().dom().contains(
                        #[trigger] removed@[i].0,
                    ),
            decreases to_level,
        {
            proof {
                if to_level == 0 {
                    assert(to == voter_genesis_spec(chain));
                    assert(from == voter_genesis_spec(chain));
                }
                assert(Self::meet_steps(vp, to, from, to_level as nat) == 1 + Self::meet_steps(
                    vp,
                    vp[to],
                    vp[from],
                    (to_level - 1) as nat,
                ));
            }
            let ghost to_steps = (to0_level - to_level) as nat;
            let ghost from_steps = (from0_level - from_level) as nat;
            let votes = self.vote_neighbor.at(&to);
            let n = votes.len();
            let mut i: usize = 0;
            while i < n
                invariant
                    0 <= i <= n,
                    n == votes.len(),
                    votes@ == ve[to],
                    self.voter_levels().dom().contains(to),
                    to_level == vl[to],
                    added@ == Self::branch_votes(vp, ve, vl, to0, to_steps) + votes@.subrange(
                        0,
                        i as int,
                    ).map(|k: int, p: H256| (p, vl[to])),
                    forall|j: int|
                        0 <= j < added@.len() ==> self.proposer_levels().dom().contains(
                            #[trigger] added@[j].0,
                        ),
                decreases n - i,
            {
                added.push((votes[i], to_level));
                proof {
                    assert(votes@.subrange(0, i + 1).map(|k: int, p: H256| (p, vl[to]))
                        =~= votes@.subrange(0, i as int).map(
                        |k: int, p: H256| (p, vl[to]),
                    ).push((votes@[i as int], vl[to])));
                }
                i += 1;
            }
            proof {
                assert(votes@.subrange(0, n as int) =~= votes@);
                Self::lemma_branch_votes_unfold(vp, ve, vl, to0, to_steps);
                assert(added@ =~= Self::branch_votes(vp, ve, vl, to0, to_steps + 1));
                Self::lemma_walk_up_unfold(vp, to0, to_steps);
            }
            to = self.voter_parent_neighbor.at(&to);

            let votes = self.vote_neighbor.at(&from);
            let n = votes.len();
            let mut i: usize = 0;
            while i < n
                invariant
                    0 <= i <= n,
                    n == votes.len(),
                    votes@ == ve[from],
                    self.voter_levels().dom().contains(from),
                    from_level == vl[from],
                    removed@ == Self::branch_votes(vp, ve, vl, from0, from_steps)
                        + votes@.subrange(0, i as int).map(|k: int, p: H256| (p, vl[from])),
                    forall|j: int|
                        0 <= j < removed@.len() ==> self.proposer_levels().dom().contains(
                            #[trigger] removed@[j].0,
                        ),
                decreases n - i,
            {
                removed.push((votes[i], from_level));
                proof {
                    assert(votes@.subrange(0, i + 1).map(|k: int, p: H256| (p, vl[from]))
                        =~= votes@.subrange(0, i as int).map(
                        |k: int, p: H256| (p, vl[from]),
                    ).push((votes@[i as int], vl[from])));
                }
                i += 1;
            }
            proof {
                assert(votes@.subrange(0, n as int) =~= votes@);
                Self::lemma_branch_votes_unfold(vp, ve, vl, from0, from_steps);
                assert(removed@ =~= Self::branch_votes(vp, ve, vl, from0, from_steps + 1));
                Self::lemma_walk_up_unfold(vp, from0, from_steps);
            }
            from = self.voter_parent_neighbor.at(&from);
            to_level = to_level - 1;
            from_level = from_level - 1;
        }
        proof {
            assert(Self::meet_steps(vp, to, from, to_level as nat) == 0);
            assert(Self::meet_steps(vp, meet_from, from0, from0_level as nat) == (from0_level
                - from_level) as nat);
            assert((to0_level - to_level) as nat == climb + (from0_level - from_level) as nat);
        }
        (added, removed)
    }
}

} // verus!

verus! {

/// The vote set a map holds for a block, the empty set when none.
pub open spec fn vote_map_get(m: Map<H256, Seq<(u16, u64)>>, h: H256) -> Seq<(u16, u64)> {
    if m.dom().contains(h) {
        m[h]
    } else {
        Seq::empty()
    }
}

/// One vote-set operand aimed at one proposer block.
pub type TargetedOp = (H256, crate::votes::VoteOp);

/// The block identifiers of a sequence of `(block, level)` pairs.
pub open spec fn firsts_of(s: Seq<(H256, u64)>) -> Seq<H256> {
    s.map_values(|p: (H256, u64)| p.0)
}

/// Vote-set merge operands folded over the vote table, first to last.
pub open spec fn apply_vote_ops_spec(
    m: Map<H256, Seq<(u16, u64)>>,
    ops: Seq<TargetedOp>,
) -> Map<H256, Seq<(u16, u64)>>
    decreases ops.len(),
{
    if ops.len() == 0 {
        m
    } else {
        apply_vote_ops_spec(
            m.insert(ops[0].0, vote_step(vote_map_get(m, ops[0].0), ops[0].1)),
            ops.subrange(1, ops.len() as int),
        )
    }
}

impl BlockChain {
    /// One level's leader is sound: a proposer block of that level whose
    /// vote set clears the majority threshold.
    pub open spec fn leader_ok_at(&self, l: u64) -> bool {
        &&& self.proposer_levels().dom().contains(self.leaders()[l])
        &&& self.proposer_levels()[self.leaders()[l]] == l
        &&& self.votes().dom().contains(self.leaders()[l])
        &&& self.votes()[self.leaders()[l]].len() > self.threshold()
    }

    /// Two states with the same ledger fields satisfy the ledger
    /// invariant together.
    proof fn lemma_ledger_wf_same(pre: BlockChain, post: BlockChain)
        requires
            pre.ledger_wf(),
            post.orders() == pre.orders(),
            post.spec_unconfirmed_proposers() == pre.spec_unconfirmed_proposers(),
            post.spec_unreferred_proposers() == pre.spec_unreferred_proposers(),
            post.proposer_levels() == pre.proposer_levels(),
        ensures
            post.ledger_wf(),
    {
        assert forall|l1: u64, l2: u64, h: H256|
            #[trigger] post.confirmed_at(l1, h) && #[trigger] post.confirmed_at(l2, h)
            implies l1 == l2 by {
            assert(pre.confirmed_at(l1, h) && pre.confirmed_at(l2, h));
        }
        assert forall|h: H256| #[trigger] post.proposer_levels().dom().contains(h) implies (
        post.spec_unconfirmed_proposers().contains(h) <==> !post.confirmed(h)) by {
            if pre.confirmed(h) {
                let lv = choose|lv: u64| pre.confirmed_at(lv, h);
                assert(post.confirmed_at(lv, h));
            }
            if post.confirmed(h) {
                let lv = choose|lv: u64| post.confirmed_at(lv, h);
                assert(pre.confirmed_at(lv, h));
            }
        }
    }

    /// Two states with the same tree, vote and leader tables elect
    /// leaders completely together.
    proof fn lemma_leader_complete_same(pre: BlockChain, post: BlockChain)
        requires
            pre.leader_complete(),
            post.tree() == pre.tree(),
            post.votes() == pre.votes(),
            post.leaders() == pre.leaders(),
            post.spec_num_chains() == pre.spec_num_chains(),
        ensures
            post.leader_complete(),
    {
        assert forall|l: u64| #[trigger] post.has_qualified(l)
            implies post.leaders().dom().contains(l) by {
            let i = choose|i: int|
                0 <= i < post.tree()[l].len() && post.qualified(#[trigger] post.tree()[l][i]);
            assert(pre.qualified(pre.tree()[l][i]));
            assert(pre.has_qualified(l));
        }
    }

    /// A state differing from an invariant-bearing one only in its vote
    /// table, and whose vote table still targets known proposer blocks,
    /// keeps the core invariant.
    #[verifier::rlimit(100)]
    proof fn lemma_votes_only_changed(pre: BlockChain, post: BlockChain)
        requires
            pre.inv_core(),
            post.tables_wf(),
            post.votes_wf(),
            post.orders() == pre.orders(),
            post.leaders() == pre.leaders(),
            post.proposer_levels() == pre.proposer_levels(),
            post.voter_levels() == pre.voter_levels(),
            post.voter_chains() == pre.voter_chains(),
            post.voted_levels() == pre.voted_levels(),
            post.tree() == pre.tree(),
            post.timestamps() == pre.timestamps(),
            post.difficulties() == pre.difficulties(),
            post.parents() == pre.parents(),
            post.vote_edges() == pre.vote_edges(),
            post.voter_parents() == pre.voter_parents(),
            post.tx_refs() == pre.tx_refs(),
            post.proposer_refs() == pre.proposer_refs(),
            post.spec_best_proposer() == pre.spec_best_proposer(),
            post.spec_best_voters() == pre.spec_best_voters(),
            post.spec_unreferred_proposers() == pre.spec_unreferred_proposers(),
            post.spec_unreferred_transactions() == pre.spec_unreferred_transactions(),
            post.spec_unconfirmed_proposers() == pre.spec_unconfirmed_proposers(),
            post.spec_num_chains() == pre.spec_num_chains(),
        ensures
            post.inv_core(),
    {
        assert(post.proposer_graph_wf());
        assert(post.proposer_tree_wf());
        assert(post.proposer_best_wf());
        assert(post.voter_graph_wf());
        assert(post.voter_best_wf());
        Self::lemma_ledger_wf_same(pre, post);
    }

    /// One merge operand aimed at `target` keeps the core invariant, the
    /// soundness of leaders at untouched levels, and the untouched
    /// blocks' vote entries.
    #[verifier::rlimit(100)]
    proof fn lemma_apply_step(
        base: BlockChain,
        pre: BlockChain,
        post: BlockChain,
        pre_touched: Set<u64>,
        touched: Set<u64>,
        target: H256,
        op: crate::votes::VoteOp,
        level: u64,
    )
        requires
            pre.inv_core(),
            post.tables_wf(),
            pre.leaders() == base.leaders(),
            pre.proposer_levels() == base.proposer_levels(),
            base.proposer_levels().dom().contains(target),
            level == base.proposer_levels()[target],
            touched == pre_touched.insert(level),
            post.votes() == pre.votes().insert(
                target,
                vote_step(vote_map_get(pre.votes(), target), op),
            ),
            post.leaders() == pre.leaders(),
            post.proposer_levels() == pre.proposer_levels(),
            post.orders() == pre.orders(),
            post.voter_levels() == pre.voter_levels(),
            post.voter_chains() == pre.voter_chains(),
            post.voted_levels() == pre.voted_levels(),
            post.tree() == pre.tree(),
            post.timestamps() == pre.timestamps(),
            post.difficulties() == pre.difficulties(),
            post.parents() == pre.parents(),
            post.vote_edges() == pre.vote_edges(),
            post.voter_parents() == pre.voter_parents(),
            post.tx_refs() == pre.tx_refs(),
            post.proposer_refs() == pre.proposer_refs(),
            post.spec_best_proposer() == pre.spec_best_proposer(),
            post.spec_best_voters() == pre.spec_best_voters(),
            post.spec_unreferred_proposers() == pre.spec_unreferred_proposers(),
            post.spec_unreferred_transactions() == pre.spec_unreferred_transactions(),
            post.spec_unconfirmed_proposers() == pre.spec_unconfirmed_proposers(),
            post.spec_num_chains() == pre.spec_num_chains(),
            forall|l: u64|
                #[trigger] pre.leaders().dom().contains(l) && !pre_touched.contains(l)
                    ==> pre.leader_ok_at(l),
            forall|hh: H256|
                #[trigger] pre.votes().dom().contains(hh) && !pre_touched.contains(
                    pre.proposer_levels()[hh],
                ) ==> base.votes().dom().contains(hh) && pre.votes()[hh] == base.votes()[hh],
            forall|hh: H256|
                #[trigger] base.votes().dom().contains(hh) && !pre_touched.contains(
                    pre.proposer_levels()[hh],
                ) ==> pre.votes().dom().contains(hh),
        ensures
            post.inv_core(),
            forall|l: u64|
                #[trigger] post.leaders().dom().contains(l) && !touched.contains(l)
                    ==> post.leader_ok_at(l),
            forall|hh: H256|
                #[trigger] post.votes().dom().contains(hh) && !touched.contains(
                    post.proposer_levels()[hh],
                ) ==> base.votes().dom().contains(hh) && post.votes()[hh] == base.votes()[hh],
            forall|hh: H256|
                #[trigger] base.votes().dom().contains(hh) && !touched.contains(
                    post.proposer_levels()[hh],
                ) ==> post.votes().dom().contains(hh),
    {
        assert(post.votes_wf()) by {
            assert forall|h: H256| #[trigger] post.votes().dom().contains(h)
                implies post.proposer_levels().dom().contains(h) by {
                if h != target {
                    assert(pre.votes().dom().contains(h));
                }
            }
        }
        Self::lemma_votes_only_changed(pre, post);
        assert forall|l: u64|
            #[trigger] post.leaders().dom().contains(l) && !touched.contains(l)
            implies post.leader_ok_at(l) by {
            assert(!pre_touched.contains(l));
            assert(pre.leader_ok_at(l));
            assert(post.leaders()[l] != target) by {
                if post.leaders()[l] == target {
                    assert(pre.proposer_levels()[target] == l);
                    assert(level == l);
                    assert(touched.contains(l));
                }
            }
        }
        assert forall|hh: H256|
            #[trigger] post.votes().dom().contains(hh) && !touched.contains(
                post.proposer_levels()[hh],
            ) implies base.votes().dom().contains(hh) && post.votes()[hh] == base.votes()[hh] by {
            assert(hh != target);
            assert(pre.votes().dom().contains(hh));
            assert(!pre_touched.contains(post.proposer_levels()[hh]));
        }
        assert forall|hh: H256|
            #[trigger] base.votes().dom().contains(hh) && !touched.contains(
                post.proposer_levels()[hh],
            ) implies post.votes().dom().contains(hh) by {
            assert(hh != target);
            assert(pre.votes().dom().contains(hh));
        }
    }

    /// Apply a batch of vote-set merge operands and collect the proposer
    /// levels they touch.
    #[verifier::loop_isolation(false)]
    #[verifier::rlimit(100)]
    fn apply_vote_ops(&mut self, ops: &Vec<TargetedOp>) -> (affected: USet)
        requires
            old(self).inv(),
            forall|i: int|
                0 <= i < ops@.len() ==> old(self).proposer_levels().dom().contains(
                    (#[trigger] ops@[i]).0,
                ),
        ensures
            final(self).inv_core(),
            final(self).orders_bounded(),
            final(self).votes() == apply_vote_ops_spec(old(self).votes(), ops@),
            final(self).leaders() == old(self).leaders(),
            final(self).orders() == old(self).orders(),
            final(self).proposer_levels() == old(self).proposer_levels(),
            final(self).voter_levels() == old(self).voter_levels(),
            final(self).voter_chains() == old(self).voter_chains(),
            final(self).voted_levels() == old(self).voted_levels(),
            final(self).tree() == old(self).tree(),
            final(self).timestamps() == old(self).timestamps(),
            final(self).difficulties() == old(self).difficulties(),
            final(self).parents() == old(self).parents(),
            final(self).vote_edges() == old(self).vote_edges(),
            final(self).voter_parents() == old(self).voter_parents(),
            final(self).tx_refs() == old(self).tx_refs(),
            final(self).proposer_refs() == old(self).proposer_refs(),
            final(self).spec_best_proposer() == old(self).spec_best_proposer(),
            final(self).spec_best_voters() == old(self).spec_best_voters(),
            final(self).spec_unreferred_proposers() == old(self).spec_unreferred_proposers(),
            final(self).spec_unreferred_transactions() == old(
                self,
            ).spec_unreferred_transactions(),
            final(self).spec_unconfirmed_proposers() == old(self).spec_unconfirmed_proposers(),
            final(self).spec_ledger_tip() == old(self).spec_ledger_tip(),
            final(self).spec_num_chains() == old(self).spec_num_chains(),
            affected.wf(),
            forall|i: int|
                0 <= i < ops@.len() ==> affected@.contains(
                    old(self).proposer_levels()[(#[trigger] ops@[i]).0],
                ),
            forall|l: u64|
                #[trigger] final(self).leaders().dom().contains(l) && !affected@.contains(l)
                    ==> final(self).leader_ok_at(l),
            forall|l: u64|
                #[trigger] final(self).has_qualified(l) && !affected@.contains(l)
                    ==> final(self).leaders().dom().contains(l),
            forall|l: u64|
                #[trigger] final(self).leaders().dom().contains(l) && !affected@.contains(l)
                    ==> final(self).elected(l) == Some(final(self).leaders()[l]),
    {
        let mut affected = USet::new();
        let n = ops.len();
        let mut i: usize = 0;
        proof {
            assert(ops@.subrange(0, n as int) =~= ops@);
        }
        while i < n
            invariant
                0 <= i <= n,
                affected.wf(),
                self.inv_core(),
                self.orders_bounded(),
                apply_vote_ops_spec(old(self).votes(), ops@) == apply_vote_ops_spec(
                    self.votes(),
                    ops@.subrange(i as int, n as int),
                ),
                self.proposer_node_vote.wf(),
                *self == (BlockChain { proposer_node_vote: self.proposer_node_vote, ..*old(self) }),
                forall|j: int|
                    0 <= j < i ==> affected@.contains(
                        old(self).proposer_levels()[(#[trigger] ops@[j]).0],
                    ),
                forall|l: u64|
                    #[trigger] self.leaders().dom().contains(l) && !affected@.contains(l)
                        ==> self.leader_ok_at(l),
                forall|hh: H256|
                    #[trigger] self.votes().dom().contains(hh) && !affected@.contains(
                        self.proposer_levels()[hh],
                    ) ==> old(self).votes().dom().contains(hh) && self.votes()[hh] == old(
                        self,
                    ).votes()[hh],
                forall|hh: H256|
                    #[trigger] old(self).votes().dom().contains(hh) && !affected@.contains(
                        self.proposer_levels()[hh],
                    ) ==> self.votes().dom().contains(hh),
            decreases n - i,
        {
            let ghost pre_iter = *self;
            let ghost pre_affected = affected@;
            let (target, op) = ops[i];
            let mut vs: Vec<(u16, u64)> = match self.proposer_node_vote.get(&target) {
                Some(v) => v,
                None => Vec::new(),
            };
            proof {
                assert(vs@ == vote_map_get(self.votes(), target));
            }
            vote_apply(&mut vs, op);
            let ghost mid_votes = self.votes();
            self.proposer_node_vote.insert(target, vs);
            let level = self.proposer_node_level.at(&target);
            affected.insert(level);
            proof {
                let rest = ops@.subrange(i as int, n as int);
                assert(rest[0] == ops@[i as int]);
                assert(rest.subrange(1, rest.len() as int) =~= ops@.subrange(i + 1, n as int));
                assert(self.votes() == mid_votes.insert(
                    target,
                    vote_step(vote_map_get(mid_votes, target), op),
                ));
                assert(affected@ == pre_affected.insert(level));
                Self::lemma_apply_step(
                    *old(self),
                    pre_iter,
                    *self,
                    pre_affected,
                    affected@,
                    target,
                    op,
                    level,
                );
            }
            i += 1;
        }
        proof {
            assert(ops@.subrange(n as int, n as int) =~= Seq::<TargetedOp>::empty());
            assert forall|l: u64|
                #[trigger] self.has_qualified(l) && !affected@.contains(l) implies self.leaders()
                .dom().contains(l) by {
                let i2 = choose|i2: int|
                    0 <= i2 < self.tree()[l].len() && self.qualified(
                        #[trigger] self.tree()[l][i2],
                    );
                let b = self.tree()[l][i2];
                assert(self.votes().dom().contains(b));
                assert(self.proposer_levels().dom().contains(b));
                assert(self.proposer_levels()[b] == l);
                assert(old(self).votes().dom().contains(b) && self.votes()[b] == old(
                    self,
                ).votes()[b]);
                assert(old(self).qualified(b));
                assert(old(self).has_qualified(l));
            }
            Self::lemma_untouched_levels_keep_election(*old(self), *self, affected@);
        }
        affected
    }

    /// When the vote table changes only at blocks of the touched levels,
    /// every untouched led level's election stands.
    proof fn lemma_untouched_levels_keep_election(
        pre: BlockChain,
        post: BlockChain,
        touched: Set<u64>,
    )
        requires
            pre.inv_core(),
            pre.leader_exact(),
            post.inv_core(),
            post.leaders() == pre.leaders(),
            post.tree() == pre.tree(),
            post.proposer_levels() == pre.proposer_levels(),
            post.spec_num_chains() == pre.spec_num_chains(),
            forall|hh: H256|
                #[trigger] post.votes().dom().contains(hh) && !touched.contains(
                    post.proposer_levels()[hh],
                ) ==> pre.votes().dom().contains(hh) && post.votes()[hh] == pre.votes()[hh],
            forall|hh: H256|
                #[trigger] pre.votes().dom().contains(hh) && !touched.contains(
                    post.proposer_levels()[hh],
                ) ==> post.votes().dom().contains(hh),
        ensures
            forall|l: u64|
                #[trigger] post.leaders().dom().contains(l) && !touched.contains(l)
                    ==> post.elected(l) == Some(post.leaders()[l]),
    {
        assert forall|l: u64|
            #[trigger] post.leaders().dom().contains(l) && !touched.contains(l)
            implies post.elected(l) == Some(post.leaders()[l]) by {
            assert(pre.leaders().dom().contains(l));
            assert(pre.elected(l) == Some(pre.leaders()[l]));
            assert(pre.tree().dom().contains(l));
            let members = post.tree()[l];
            assert forall|i2: int| 0 <= i2 < members.len() implies {
                &&& post.votes().dom().contains(#[trigger] members[i2]) == pre.votes().dom()
                    .contains(members[i2])
                &&& (post.votes().dom().contains(members[i2]) ==> post.votes()[members[i2]]
                    == pre.votes()[members[i2]])
            } by {
                let hh = members[i2];
                assert(post.proposer_levels().dom().contains(hh));
                assert(post.proposer_levels()[hh] == l);
            }
            Self::lemma_last_qualified_agree(
                post.votes(),
                pre.votes(),
                post.threshold(),
                members,
            );
        }
    }
}

} // verus!

verus! {

impl BlockChain {
    /// Scan one proposer level in arrival order; the last block whose
    /// vote set clears the threshold is the candidate leader.
    #[verifier::loop_isolation(false)]
    fn elect_leader_at(&self, level: u64) -> (r: Option<H256>)
        requires
            self.inv_core(),
        ensures
            r == self.elected(level),
            match r {
                Some(h) => {
                    &&& self.proposer_levels().dom().contains(h)
                    &&& self.proposer_levels()[h] == level
                    &&& self.votes().dom().contains(h)
                    &&& self.votes()[h].len() > self.threshold()
                },
                None => !self.has_qualified(level),
            },
    {
        let blocks = match self.proposer_tree_level.get(level) {
            None => {
                return None;
            },
            Some(b) => b,
        };
        let threshold: usize = (self.num_voter_chains / 2 + 1) as usize;
        let mut new_leader: Option<H256> = None;
        let n = blocks.len();
        let mut i: usize = 0;
        proof {
            assert(blocks@.subrange(0, 0).len() == 0);
        }
        while i < n
            invariant
                0 <= i <= n,
                n == blocks.len(),
                blocks@ == self.tree()[level],
                new_leader == Self::last_qualified_in(
                    self.votes(),
                    self.threshold(),
                    blocks@.subrange(0, i as int),
                ),
                match new_leader {
                    Some(h) => {
                        &&& self.proposer_levels().dom().contains(h)
                        &&& self.proposer_levels()[h] == level
                        &&& self.votes().dom().contains(h)
                        &&& self.votes()[h].len() > self.threshold()
                    },
                    None => forall|j: int| 0 <= j < i ==> !self.qualified(#[trigger] blocks@[j]),
                },
            decreases n - i,
        {
            let block = blocks[i];
            let ghost prefix1 = blocks@.subrange(0, i + 1);
            proof {
                assert(prefix1.last() == blocks@[i as int]);
                assert(prefix1.drop_last() =~= blocks@.subrange(0, i as int));
            }
            match self.proposer_node_vote.get(&block) {
                None => {
                    proof {
                        assert(!self.votes().dom().contains(block));
                    }
                },
                Some(votes) => {
                    if votes.len() > threshold {
                        new_leader = Some(block);
                    }
                },
            }
            i += 1;
        }
        proof {
            assert(blocks@.subrange(0, n as int) =~= blocks@);
            if new_leader is None {
                assert(!self.has_qualified(level)) by {
                    if self.has_qualified(level) {
                        let j = choose|j: int|
                            0 <= j < self.tree()[level].len() && self.qualified(
                                #[trigger] self.tree()[level][j],
                            );
                        assert(!self.qualified(blocks@[j]));
                    }
                }
            }
        }
        new_leader
    }

    /// A state differing from a core-invariant-bearing one only in its
    /// leader table keeps the core invariant.
    proof fn lemma_leaders_only_changed(pre: BlockChain, post: BlockChain)
        requires
            pre.inv_core(),
            post.tables_wf(),
            post == (BlockChain { proposer_leader_sequence: post.proposer_leader_sequence, ..pre }),
        ensures
            post.inv_core(),
    {
        assert(post.orders() == pre.orders());
        assert(post.votes() == pre.votes());
        assert(post.proposer_levels() == pre.proposer_levels());
        assert(post.voter_levels() == pre.voter_levels());
        assert(post.voter_chains() == pre.voter_chains());
        assert(post.voted_levels() == pre.voted_levels());
        assert(post.tree() == pre.tree());
        assert(post.timestamps() == pre.timestamps());
        assert(post.difficulties() == pre.difficulties());
        assert(post.parents() == pre.parents());
        assert(post.vote_edges() == pre.vote_edges());
        assert(post.voter_parents() == pre.voter_parents());
        assert(post.tx_refs() == pre.tx_refs());
        assert(post.proposer_refs() == pre.proposer_refs());
        assert(post.spec_best_proposer() == pre.spec_best_proposer());
        assert(post.spec_best_voters() == pre.spec_best_voters());
        assert(post.spec_unreferred_proposers() == pre.spec_unreferred_proposers());
        assert(post.spec_unreferred_transactions() == pre.spec_unreferred_transactions());
        assert(post.spec_unconfirmed_proposers() == pre.spec_unconfirmed_proposers());
        assert(post.spec_num_chains() == pre.spec_num_chains());
        assert(post.proposer_graph_wf());
        assert(post.proposer_tree_wf());
        assert(post.proposer_best_wf());
        assert(post.voter_graph_wf());
        assert(post.voter_best_wf());
        assert(post.votes_wf());
        Self::lemma_ledger_wf_same(pre, post);
    }

    /// Re-elect the leader of every touched proposer level, and return
    /// the lowest level whose leader changed, if any changed.
    #[verifier::loop_isolation(false)]
    #[verifier::rlimit(100)]
    fn update_leaders(&mut self, affected: &Vec<u64>) -> (r: Option<u64>)
        requires
            old(self).inv_core(),
            old(self).orders_bounded(),
            forall|l: u64|
                #[trigger] old(self).leaders().dom().contains(l) && !affected@.contains(l)
                    ==> old(self).leader_ok_at(l),
            forall|l: u64|
                #[trigger] old(self).leaders().dom().contains(l) ==> old(
                    self,
                ).proposer_levels().dom().contains(old(self).leaders()[l]) && old(
                    self,
                ).proposer_levels()[old(self).leaders()[l]] == l,
            forall|l: u64|
                #[trigger] old(self).has_qualified(l) && !affected@.contains(l) ==> old(
                    self,
                ).leaders().dom().contains(l),
            forall|l: u64|
                #[trigger] old(self).leaders().dom().contains(l) && !affected@.contains(l)
                    ==> old(self).elected(l) == Some(old(self).leaders()[l]),
        ensures
            final(self).inv_sans_frontier(),
            *final(self) == (BlockChain {
                proposer_leader_sequence: final(self).proposer_leader_sequence,
                ..*old(self)
            }),
            r == None::<u64> ==> final(self).leaders() == old(self).leaders(),
            match r {
                Some(cb) => cb <= old(self).proposer_best.1 && forall|l: u64|
                    l < cb ==> (#[trigger] final(self).leaders().dom().contains(l) == old(
                        self,
                    ).leaders().dom().contains(l) && (final(self).leaders().dom().contains(l)
                        ==> final(self).leaders()[l] == old(self).leaders()[l])),
                None => true,
            },
    {
        let mut change_begin: Option<u64> = None;
        let n = affected.len();
        let mut i: usize = 0;
        proof {
            assert(affected@.subrange(0, n as int) =~= affected@);
        }
        while i < n
            invariant
                0 <= i <= n,
                self.inv_core(),
                self.proposer_leader_sequence.wf(),
                *self == (BlockChain {
                    proposer_leader_sequence: self.proposer_leader_sequence,
                    ..*old(self)
                }),
                forall|l: u64|
                    #[trigger] self.leaders().dom().contains(l) ==> affected@.subrange(
                        i as int,
                        n as int,
                    ).contains(l) || self.leader_ok_at(l),
                forall|l: u64|
                    #[trigger] self.leaders().dom().contains(l)
                        ==> self.proposer_levels().dom().contains(self.leaders()[l])
                        && self.proposer_levels()[self.leaders()[l]] == l,
                forall|l: u64|
                    #[trigger] self.has_qualified(l) ==> affected@.subrange(
                        i as int,
                        n as int,
                    ).contains(l) || self.leaders().dom().contains(l),
                forall|l: u64|
                    #[trigger] self.leaders().dom().contains(l) ==> affected@.subrange(
                        i as int,
                        n as int,
                    ).contains(l) || self.elected(l) == Some(self.leaders()[l]),
                change_begin == None::<u64> ==> self.leaders() == old(self).leaders(),
                match change_begin {
                    Some(cb) => cb <= self.proposer_best.1 && forall|l: u64|
                        l < cb ==> (#[trigger] self.leaders().dom().contains(l) == old(
                            self,
                        ).leaders().dom().contains(l) && (self.leaders().dom().contains(l)
                            ==> self.leaders()[l] == old(self).leaders()[l])),
                    None => true,
                },
            decreases n - i,
        {
            let level = affected[i];
            let existing = self.proposer_leader_sequence.get(level);
            let new_leader = self.elect_leader_at(level);
            let ghost pre_iter = *self;
            let changed: bool = match (&new_leader, &existing) {
                (Option::None, Option::None) => false,
                (Option::Some(a), Option::Some(b)) => *a != *b,
                _ => true,
            };
            if changed {
                proof {
                    match existing {
                        Some(e) => {
                            assert(pre_iter.leaders().dom().contains(level));
                            assert(pre_iter.proposer_levels()[e] == level);
                            assert(level <= self.proposer_best.1);
                        },
                        None => {
                            assert(new_leader is Some);
                            assert(level <= self.proposer_best.1);
                        },
                    }
                }
                match new_leader {
                    None => {
                        self.proposer_leader_sequence.remove(level);
                    },
                    Some(nl) => {
                        self.proposer_leader_sequence.insert(level, nl);
                    },
                }
                change_begin = match change_begin {
                    None => Some(level),
                    Some(cb) => if level < cb {
                        Some(level)
                    } else {
                        Some(cb)
                    },
                };
            }
            proof {
                Self::lemma_leaders_only_changed(pre_iter, *self);
                assert forall|l: u64| #[trigger] self.leaders().dom().contains(l)
                    implies affected@.subrange(i + 1, n as int).contains(l) || self.elected(l)
                    == Some(self.leaders()[l]) by {
                    assert(self.elected(l) == pre_iter.elected(l));
                    if l == level {
                        assert(self.elected(level) == Some(self.leaders()[level]));
                    } else {
                        assert(pre_iter.leaders().dom().contains(l));
                        assert(self.leaders()[l] == pre_iter.leaders()[l]);
                        if affected@.subrange(i as int, n as int).contains(l) {
                            let w = choose|w: int| i <= w < n && affected@[w] == l;
                            assert(w != i);
                            assert(affected@.subrange(i + 1, n as int)[w - i - 1] == l);
                        }
                    }
                }
                assert forall|l: u64| #[trigger] self.has_qualified(l)
                    implies affected@.subrange(i + 1, n as int).contains(l)
                    || self.leaders().dom().contains(l) by {
                    assert(pre_iter.has_qualified(l)) by {
                        let w = choose|w: int|
                            0 <= w < self.tree()[l].len() && self.qualified(
                                #[trigger] self.tree()[l][w],
                            );
                        assert(pre_iter.qualified(pre_iter.tree()[l][w]));
                    }
                    if l == level {
                        assert(new_leader is Some);
                        assert(self.leaders().dom().contains(level));
                    } else if affected@.subrange(i as int, n as int).contains(l) {
                        let w = choose|w: int| i <= w < n && affected@[w] == l;
                        assert(w != i);
                        assert(affected@.subrange(i + 1, n as int)[w - i - 1] == l);
                    } else {
                        assert(pre_iter.leaders().dom().contains(l));
                        assert(self.leaders().dom().contains(l));
                    }
                }
                assert forall|l: u64| #[trigger] self.leaders().dom().contains(l)
                    implies affected@.subrange(i + 1, n as int).contains(l)
                    || self.leader_ok_at(l) by {
                    if l == level {
                        assert(self.leader_ok_at(l));
                    } else {
                        assert(pre_iter.leaders().dom().contains(l));
                        assert(self.leaders()[l] == pre_iter.leaders()[l]);
                        if affected@.subrange(i as int, n as int).contains(l) {
                            let w = choose|w: int|
                                i <= w < n && affected@[w] == l;
                            assert(w != i);
                            assert(affected@.subrange(i + 1, n as int)[w - i - 1] == l);
                        } else {
                            assert(pre_iter.leader_ok_at(l));
                        }
                    }
                }
            }
            i += 1;
        }
        proof {
            assert forall|l: u64| #[trigger] self.leaders().dom().contains(l)
                implies self.leader_ok_at(l) by {
                assert(!affected@.subrange(n as int, n as int).contains(l));
            }
            assert forall|l: u64| #[trigger] self.has_qualified(l)
                implies self.leaders().dom().contains(l) by {
                assert(!affected@.subrange(n as int, n as int).contains(l));
            }
            assert forall|l: u64| #[trigger] self.leaders().dom().contains(l)
                implies self.elected(l) == Some(self.leaders()[l]) by {
                assert(!affected@.subrange(n as int, n as int).contains(l));
            }
            Self::lemma_ledger_wf_same(*old(self), *self);
            assert(self.inv_core());
            assert(self.inv_sans_frontier());
        }
        change_begin
    }
}

} // verus!

verus! {

impl BlockChain {
    /// Confirm one ledger level: search from the leader along proposer
    /// references, confirming every not-yet-confirmed block reached, in
    /// first-reference-first order; then order the collected blocks by
    /// level, ties keeping the search order, and store that sequence as
    /// the level's ledger order.
    #[verifier::loop_isolation(false)]
    #[verifier::rlimit(100)]
    fn confirm_one_level(&mut self, leader: H256, level: u64) -> (added_here: Vec<H256>)
        requires
            old(self).inv_core(),
            old(self).proposer_levels().dom().contains(leader),
            !old(self).orders().dom().contains(level),
        ensures
            final(self).inv_core(),
            final(self).orders() == old(self).orders().insert(level, added_here@),
            final(self).spec_unconfirmed_proposers() == old(
                self,
            ).spec_unconfirmed_proposers().difference(added_here@.to_set()),
            added_here@.no_duplicates(),
            forall|i: int|
                0 <= i < added_here@.len() ==> old(self).proposer_levels().dom().contains(
                    #[trigger] added_here@[i],
                ),
            *final(self) == (BlockChain {
                proposer_ledger_order: final(self).proposer_ledger_order,
                unconfirmed_proposers: final(self).unconfirmed_proposers,
                ..*old(self)
            }),
    {
        let mut ledger: Vec<(H256, u64)> = Vec::new();
        let mut stack: Vec<H256> = Vec::new();
        stack.push(leader);
        while stack.len() > 0
            invariant
                self.unconfirmed_proposers.wf(),
                *self == (BlockChain {
                    unconfirmed_proposers: self.unconfirmed_proposers,
                    ..*old(self)
                }),
                forall|a: int, b: int|
                    0 <= a < b < ledger@.len() ==> (#[trigger] ledger@[a]).0 != (
                    #[trigger] ledger@[b]).0,
                forall|i: int|
                    0 <= i < ledger@.len() ==> {
                        &&& old(self).proposer_levels().dom().contains(
                            (#[trigger] ledger@[i]).0,
                        )
                        &&& ledger@[i].1 == old(self).proposer_levels()[ledger@[i].0]
                        &&& old(self).spec_unconfirmed_proposers().contains(ledger@[i].0)
                    },
                self.unconfirmed_proposers@ == old(self).spec_unconfirmed_proposers().difference(
                    firsts_of(ledger@).to_set(),
                ),
            decreases self.unconfirmed_proposers@.len(), stack.len(),
        {
            let top = match stack.pop() {
                Some(t) => t,
                None => unreached(),
            };
            let ghost pre_unconf = self.unconfirmed_proposers@;
            let was_unconfirmed = self.unconfirmed_proposers.remove(&top);
            if !was_unconfirmed {
                proof {
                    assert(self.unconfirmed_proposers@ =~= pre_unconf);
                }
                continue;
            }
            let lvl = self.proposer_node_level.at(&top);
            let refs = self.proposer_ref_neighbor.at(&top);
            let ghost pre_ledger = ledger@;
            ledger.push((top, lvl));
            proof {
                assert(ledger@ == pre_ledger.push((top, lvl)));
                assert(firsts_of(ledger@) =~= firsts_of(pre_ledger).push(top));
                firsts_of(pre_ledger).lemma_push_to_set_commute(top);
                assert(!firsts_of(pre_ledger).to_set().contains(top)) by {
                    if firsts_of(pre_ledger).to_set().contains(top) {
                        let w = choose|w: int|
                            0 <= w < firsts_of(pre_ledger).len() && firsts_of(pre_ledger)[w]
                                == top;
                        assert(pre_ledger[w].0 == top);
                        assert(!pre_unconf.contains(top));
                    }
                }
                assert(self.unconfirmed_proposers@ =~= old(
                    self,
                ).spec_unconfirmed_proposers().difference(
                    firsts_of(ledger@).to_set(),
                ));
                assert forall|a: int, b: int| 0 <= a < b < ledger@.len() implies (
                #[trigger] ledger@[a]).0 != (#[trigger] ledger@[b]).0 by {
                    if b == ledger@.len() - 1 {
                        assert(ledger@[a].0 == pre_ledger[a].0);
                        if ledger@[a].0 == top {
                            assert(firsts_of(pre_ledger)[a] == top);
                            assert(!pre_unconf.contains(top));
                        }
                    }
                }
            }
            let m = refs.len();
            let mut k: usize = m;
            while k > 0
                invariant
                    0 <= k <= m,
                decreases k,
            {
                stack.push(refs[k - 1]);
                k -= 1;
            }
        }
        let ghost dfs_pairs = ledger@;
        let sorted = sort_by_level(ledger);
        proof {
            lemma_sort_by_level_elems(dfs_pairs);
        }
        let mut added_here: Vec<H256> = Vec::new();
        let ns = sorted.len();
        let mut i: usize = 0;
        while i < ns
            invariant
                0 <= i <= ns,
                ns == sorted.len(),
                sorted@ == spec_sort_by_level(dfs_pairs),
                added_here@.len() == i,
                forall|j: int| 0 <= j < i ==> (#[trigger] added_here@[j]) == sorted@[j].0,
            decreases ns - i,
        {
            added_here.push(sorted[i].0);
            i += 1;
        }
        proof {
            // distinct first components survive the sort
            assert forall|a: int, b: int|
                0 <= a < b < added_here@.len() implies (#[trigger] added_here@[a]) != (
            #[trigger] added_here@[b]) by {
                assert(sorted@[a].0 == added_here@[a] && sorted@[b].0 == added_here@[b]);
                if sorted@[a].0 == sorted@[b].0 {
                    assert(dfs_pairs.no_duplicates()) by {
                        assert forall|x: int, y: int|
                            0 <= x < y < dfs_pairs.len() implies dfs_pairs[x] != dfs_pairs[y] by {
                            assert(dfs_pairs[x].0 != dfs_pairs[y].0);
                        }
                    }
                    assert(sorted@.no_duplicates());
                    assert(sorted@[a] != sorted@[b]);
                    assert(sorted@.contains(sorted@[a]));
                    assert(sorted@.contains(sorted@[b]));
                    assert(dfs_pairs.contains(sorted@[a]));
                    assert(dfs_pairs.contains(sorted@[b]));
                    let x = choose|x: int| 0 <= x < dfs_pairs.len() && dfs_pairs[x] == sorted@[a];
                    let y = choose|y: int| 0 <= y < dfs_pairs.len() && dfs_pairs[y] == sorted@[b];
                    assert(dfs_pairs[x].0 == dfs_pairs[y].0);
                    assert(x != y);
                }
            }
            assert(added_here@.no_duplicates());
            // the sorted firsts are exactly the searched blocks
            assert forall|h: H256| added_here@.to_set().contains(h) implies firsts_of(
                dfs_pairs,
            ).to_set().contains(h) by {
                let j = choose|j: int| 0 <= j < added_here@.len() && added_here@[j] == h;
                assert(sorted@[j].0 == h);
                assert(sorted@.contains(sorted@[j]));
                assert(dfs_pairs.contains(sorted@[j]));
                let x = choose|x: int| 0 <= x < dfs_pairs.len() && dfs_pairs[x] == sorted@[j];
                assert(firsts_of(dfs_pairs)[x] == h);
            }
            assert forall|h: H256| firsts_of(dfs_pairs).to_set().contains(h)
                implies added_here@.to_set().contains(h) by {
                let x = choose|x: int|
                    0 <= x < firsts_of(dfs_pairs).len() && #[trigger] firsts_of(dfs_pairs)[x]
                        == h;
                assert(dfs_pairs[x].0 == h);
                assert(dfs_pairs.contains(dfs_pairs[x]));
                assert(sorted@.contains(dfs_pairs[x]));
                let j = choose|j: int| 0 <= j < sorted@.len() && sorted@[j] == dfs_pairs[x];
                assert(added_here@[j] == h);
            }
            assert(added_here@.to_set() =~= firsts_of(dfs_pairs).to_set());
            assert forall|j: int| 0 <= j < added_here@.len() implies old(
                self,
            ).proposer_levels().dom().contains(#[trigger] added_here@[j]) by {
                assert(sorted@.contains(sorted@[j]));
                assert(dfs_pairs.contains(sorted@[j]));
                let x = choose|x: int| 0 <= x < dfs_pairs.len() && dfs_pairs[x] == sorted@[j];
                assert(dfs_pairs[x].0 == added_here@[j]);
            }
        }
        let ghost pre_write = *self;
        self.proposer_ledger_order.insert(level, clone_items(&added_here));
        proof {
            Self::lemma_confirm_level_inv(
                *old(self),
                pre_write,
                *self,
                leader,
                level,
                added_here@,
                dfs_pairs,
            );
        }
        added_here
    }

    /// Writing one freshly searched level restores the core invariant.
    #[verifier::rlimit(100)]
    proof fn lemma_confirm_level_inv(
        pre: BlockChain,
        mid: BlockChain,
        post: BlockChain,
        leader: H256,
        level: u64,
        added: Seq<H256>,
        dfs_pairs: Seq<(H256, u64)>,
    )
        requires
            pre.inv_core(),
            !pre.orders().dom().contains(level),
            mid == (BlockChain { unconfirmed_proposers: mid.unconfirmed_proposers, ..pre }),
            mid.unconfirmed_proposers.wf(),
            mid.spec_unconfirmed_proposers() == pre.spec_unconfirmed_proposers().difference(
                added.to_set(),
            ),
            forall|h: H256|
                added.to_set().contains(h) ==> pre.spec_unconfirmed_proposers().contains(h),
            forall|i: int|
                0 <= i < added.len() ==> pre.proposer_levels().dom().contains(
                    #[trigger] added[i],
                ),
            added.no_duplicates(),
            post == (BlockChain { proposer_ledger_order: post.proposer_ledger_order, ..mid }),
            post.proposer_ledger_order.wf(),
            post.orders() == pre.orders().insert(level, added),
        ensures
            post.inv_core(),
    {
        assert(post.votes() == pre.votes());
        assert(post.proposer_levels() == pre.proposer_levels());
        assert(post.voter_levels() == pre.voter_levels());
        assert(post.voter_chains() == pre.voter_chains());
        assert(post.voted_levels() == pre.voted_levels());
        assert(post.tree() == pre.tree());
        assert(post.timestamps() == pre.timestamps());
        assert(post.difficulties() == pre.difficulties());
        assert(post.parents() == pre.parents());
        assert(post.vote_edges() == pre.vote_edges());
        assert(post.voter_parents() == pre.voter_parents());
        assert(post.tx_refs() == pre.tx_refs());
        assert(post.proposer_refs() == pre.proposer_refs());
        assert(post.spec_best_proposer() == pre.spec_best_proposer());
        assert(post.spec_best_voters() == pre.spec_best_voters());
        assert(post.spec_unreferred_proposers() == pre.spec_unreferred_proposers());
        assert(post.spec_unreferred_transactions() == pre.spec_unreferred_transactions());
        assert(post.spec_num_chains() == pre.spec_num_chains());
        assert(post.proposer_graph_wf());
        assert(post.proposer_tree_wf());
        assert(post.proposer_best_wf());
        assert(post.voter_graph_wf());
        assert(post.voter_best_wf());
        assert(post.votes_wf());
        // searched blocks were unconfirmed, so no old level confirms them
        assert forall|h: H256| added.to_set().contains(h) implies !pre.confirmed(h) by {
            assert(pre.spec_unconfirmed_proposers().contains(h));
            assert(pre.proposer_levels().dom().contains(h));
        }
        assert(post.ledger_wf()) by {
            assert forall|l: u64| #[trigger] post.orders().dom().contains(l) implies {
                &&& post.orders()[l].no_duplicates()
                &&& forall|i: int|
                    0 <= i < post.orders()[l].len() ==> post.proposer_levels().dom().contains(
                        #[trigger] post.orders()[l][i],
                    )
            } by {
                if l != level {
                    assert(pre.orders().dom().contains(l));
                    assert(post.orders()[l] == pre.orders()[l]);
                }
            }
            assert forall|l1: u64, l2: u64, h: H256|
                #[trigger] post.confirmed_at(l1, h) && #[trigger] post.confirmed_at(l2, h)
                implies l1 == l2 by {
                if l1 != level && l2 != level {
                    assert(pre.confirmed_at(l1, h) && pre.confirmed_at(l2, h));
                } else if l1 == level && l2 != level {
                    assert(added.to_set().contains(h));
                    assert(pre.confirmed_at(l2, h));
                    assert(pre.confirmed(h));
                } else if l2 == level && l1 != level {
                    assert(added.to_set().contains(h));
                    assert(pre.confirmed_at(l1, h));
                    assert(pre.confirmed(h));
                }
            }
            assert forall|h: H256| #[trigger] post.proposer_levels().dom().contains(h) implies (
            post.spec_unconfirmed_proposers().contains(h) <==> !post.confirmed(h)) by {
                if added.to_set().contains(h) {
                    assert(post.confirmed_at(level, h));
                    assert(!post.spec_unconfirmed_proposers().contains(h));
                } else {
                    assert(post.spec_unconfirmed_proposers().contains(h)
                        == pre.spec_unconfirmed_proposers().contains(h));
                    if pre.confirmed(h) {
                        let lv = choose|lv: u64| pre.confirmed_at(lv, h);
                        assert(lv != level);
                        assert(post.confirmed_at(lv, h));
                    }
                    if post.confirmed(h) {
                        let lv = choose|lv: u64| post.confirmed_at(lv, h);
                        assert(lv != level);
                        assert(pre.confirmed_at(lv, h));
                    }
                }
            }
        }
    }
}

} // verus!

verus! {

impl BlockChain {
    /// Retire every ledger level from `change_begin` to the tip,
    /// returning their blocks to the unconfirmed set.
    #[verifier::loop_isolation(false)]
    #[verifier::rlimit(100)]
    fn deconfirm_levels(&mut self, change_begin: u64) -> (removed: Vec<H256>)
        requires
            old(self).inv_sans_frontier(),
        ensures
            final(self).inv_core(),
            *final(self) == (BlockChain {
                proposer_ledger_order: final(self).proposer_ledger_order,
                unconfirmed_proposers: final(self).unconfirmed_proposers,
                ..*old(self)
            }),
            forall|l: u64| #[trigger] final(self).orders().dom().contains(l) ==> l < change_begin,
            forall|l: u64|
                #[trigger] final(self).orders().dom().contains(l) ==> old(
                    self,
                ).orders().dom().contains(l) && final(self).orders()[l] == old(self).orders()[l],
            forall|l: u64|
                #[trigger] old(self).orders().dom().contains(l) && l < change_begin
                    ==> final(self).orders().dom().contains(l),
            removed@ == concat_orders(
                old(self).orders(),
                change_begin as int,
                old(self).spec_ledger_tip() as int,
            ),
            forall|i: int|
                0 <= i < removed@.len() ==> old(self).proposer_levels().dom().contains(
                    #[trigger] removed@[i],
                ),
    {
        let mut removed: Vec<H256> = Vec::new();
        let tip = self.ledger_tip;
        proof {
            let b0 = self.proposer_best.0;
            assert(self.proposer_levels().dom().contains(b0));
            assert(self.proposer_levels()[b0] < u64::MAX) by {
                if b0 != proposer_genesis_spec() {
                } else {
                    assert(self.proposer_levels()[b0] == 0);
                }
            }
            assert(self.proposer_best.1 < u64::MAX);
            assert(tip < u64::MAX);
        }
        let mut level = change_begin;
        if level > tip {
            proof {
                assert forall|l: u64| #[trigger] self.orders().dom().contains(l)
                    implies l < change_begin by {
                    assert(l <= tip);
                }
                assert(removed@ =~= concat_orders(
                    self.orders(),
                    change_begin as int,
                    tip as int,
                ));
            }
            return removed;
        }
        while level <= tip
            invariant
                change_begin <= level <= tip + 1,
                tip == self.ledger_tip,
                self.inv_core(),
                self.proposer_ledger_order.wf(),
                self.unconfirmed_proposers.wf(),
                *self == (BlockChain {
                    proposer_ledger_order: self.proposer_ledger_order,
                    unconfirmed_proposers: self.unconfirmed_proposers,
                    ..*old(self)
                }),
                forall|l: u64|
                    #[trigger] self.orders().dom().contains(l) ==> l <= tip && (l < change_begin
                        || l >= level),
                forall|l: u64|
                    #[trigger] self.orders().dom().contains(l) ==> old(
                        self,
                    ).orders().dom().contains(l) && self.orders()[l] == old(self).orders()[l],
                forall|l: u64|
                    #[trigger] old(self).orders().dom().contains(l) && (l < change_begin || l
                        >= level) ==> self.orders().dom().contains(l),
                removed@ == concat_orders(old(self).orders(), change_begin as int, level - 1),
                forall|i: int|
                    0 <= i < removed@.len() ==> old(self).proposer_levels().dom().contains(
                        #[trigger] removed@[i],
                    ),
                tip < u64::MAX,
            decreases tip + 1 - level,
        {
            let ghost pre_iter = *self;
            match self.proposer_ledger_order.get(level) {
                None => {},
                Some(blocks) => {
                    self.proposer_ledger_order.remove(level);
                    let nb = blocks.len();
                    let mut bi: usize = 0;
                    while bi < nb
                        invariant
                            0 <= bi <= nb,
                            nb == blocks.len(),
                            blocks@ == pre_iter.orders()[level],
                            self.proposer_ledger_order.wf(),
                            self.unconfirmed_proposers.wf(),
                            *self == (BlockChain {
                                proposer_ledger_order: self.proposer_ledger_order,
                                unconfirmed_proposers: self.unconfirmed_proposers,
                                ..pre_iter
                            }),
                            self.orders() == pre_iter.orders().remove(level),
                            self.spec_unconfirmed_proposers()
                                == pre_iter.spec_unconfirmed_proposers().union(
                                blocks@.subrange(0, bi as int).to_set(),
                            ),
                            removed@ == concat_orders(
                                old(self).orders(),
                                change_begin as int,
                                level - 1,
                            ) + blocks@.subrange(0, bi as int),
                            forall|i: int|
                                0 <= i < removed@.len()
                                    ==> old(self).proposer_levels().dom().contains(
                                    #[trigger] removed@[i],
                                ),
                        decreases nb - bi,
                    {
                        let b = blocks[bi];
                        self.unconfirmed_proposers.insert(b);
                        removed.push(b);
                        proof {
                            let sub1 = blocks@.subrange(0, bi + 1);
                            assert(sub1.drop_last() =~= blocks@.subrange(0, bi as int));
                            assert(sub1.drop_last().push(b) =~= sub1);
                            sub1.drop_last().lemma_push_to_set_commute(b);
                            assert(pre_iter.spec_unconfirmed_proposers().union(
                                sub1.drop_last().to_set(),
                            ).insert(b) =~= pre_iter.spec_unconfirmed_proposers().union(
                                sub1.to_set(),
                            ));
                            assert(pre_iter.orders().dom().contains(level));
                            assert(pre_iter.orders()[level][bi as int] == b);
                            assert(old(self).proposer_levels().dom().contains(b));
                        }
                        proof {
                            assert(removed@ =~= concat_orders(
                                old(self).orders(),
                                change_begin as int,
                                level - 1,
                            ) + blocks@.subrange(0, bi + 1));
                        }
                        bi += 1;
                    }
                    proof {
                        assert(blocks@.subrange(0, nb as int) =~= blocks@);
                        Self::lemma_deconfirm_level_inv(pre_iter, *self, level);
                    }
                },
            }
            proof {
                assert(old(self).orders().dom().contains(level)
                    == pre_iter.orders().dom().contains(level));
                assert(removed@ =~= concat_orders(
                    old(self).orders(),
                    change_begin as int,
                    level as int,
                ));
            }
            level += 1;
        }
        removed
    }

    /// Reconfirm levels upward from `change_begin` until a level without
    /// a leader stops the ledger, and set the tip there.
    #[verifier::loop_isolation(false)]
    #[verifier::rlimit(100)]
    fn reconfirm_levels(&mut self, change_begin: u64) -> (added: Vec<H256>)
        requires
            old(self).inv_core(),
            old(self).leader_wf(),
            old(self).leader_complete(),
            old(self).leader_exact(),
            change_begin <= old(self).proposer_best.1 + 1,
            forall|l: u64| #[trigger] old(self).orders().dom().contains(l) ==> l < change_begin,
            forall|l: u64|
                #[trigger] old(self).orders().dom().contains(l) ==> old(
                    self,
                ).leaders().dom().contains(l),
        ensures
            final(self).inv(),
            *final(self) == (BlockChain {
                proposer_ledger_order: final(self).proposer_ledger_order,
                unconfirmed_proposers: final(self).unconfirmed_proposers,
                ledger_tip: final(self).ledger_tip,
                ..*old(self)
            }),
            added@ == concat_orders(
                final(self).orders(),
                change_begin as int,
                final(self).spec_ledger_tip() as int,
            ),
            forall|l: u64|
                l < change_begin ==> (#[trigger] final(self).orders().dom().contains(l) == old(
                    self,
                ).orders().dom().contains(l) && (final(self).orders().dom().contains(l)
                    ==> final(self).orders()[l] == old(self).orders()[l])),
            forall|i: int|
                0 <= i < added@.len() ==> old(self).proposer_levels().dom().contains(
                    #[trigger] added@[i],
                ),
    {
        let mut added: Vec<H256> = Vec::new();
        let best_level = self.proposer_best.1;
        let mut level = change_begin;
        let mut current: Option<H256> = self.proposer_leader_sequence.get(level);
        proof {
            if current is Some {
                assert(self.leader_ok_at(level));
                assert(self.proposer_levels()[self.leaders()[level]] == level);
            }
            assert(added@ =~= concat_orders(
                self.orders(),
                change_begin as int,
                change_begin - 1,
            ));
        }
        while current.is_some()
            invariant
                change_begin <= level,
                self.inv_core(),
                best_level == self.proposer_best.1,
                self.leader_wf(),
                self.leader_complete(),
                match current {
                    Some(h) => self.leaders().dom().contains(level) && self.leaders()[level]
                        == h,
                    None => !self.leaders().dom().contains(level),
                },
                current.is_some() ==> level <= best_level,
                level <= best_level + 1,
                *self == (BlockChain {
                    proposer_ledger_order: self.proposer_ledger_order,
                    unconfirmed_proposers: self.unconfirmed_proposers,
                    ..*old(self)
                }),
                forall|l: u64| #[trigger] self.orders().dom().contains(l) ==> l < level,
                forall|l: u64|
                    #[trigger] self.orders().dom().contains(l) ==> self.leaders().dom().contains(
                        l,
                    ),
                added@ == concat_orders(self.orders(), change_begin as int, level - 1),
                forall|l: u64|
                    l < change_begin ==> (#[trigger] self.orders().dom().contains(l) == old(
                        self,
                    ).orders().dom().contains(l) && (self.orders().dom().contains(l)
                        ==> self.orders()[l] == old(self).orders()[l])),
                forall|i: int|
                    0 <= i < added@.len() ==> old(self).proposer_levels().dom().contains(
                        #[trigger] added@[i],
                    ),
            decreases best_level + 1 - level,
        {
            let leader = match current {
                Some(ld) => ld,
                None => unreached(),
            };
            let ghost pre_iter = *self;
            let confirmed_here = self.confirm_one_level(leader, level);
            proof {
                Self::lemma_ledger_writes_keep_leaders(pre_iter, *self);
                Self::lemma_leader_complete_same(pre_iter, *self);
            }
            let ghost pre_added = added@;
            let nc = confirmed_here.len();
            let mut ci: usize = 0;
            while ci < nc
                invariant
                    0 <= ci <= nc,
                    nc == confirmed_here.len(),
                    added@ == pre_added + confirmed_here@.subrange(0, ci as int),
                    forall|i: int|
                        0 <= i < confirmed_here@.len()
                            ==> old(self).proposer_levels().dom().contains(
                            #[trigger] confirmed_here@[i],
                        ),
                    forall|i: int|
                        0 <= i < added@.len() ==> old(self).proposer_levels().dom().contains(
                            #[trigger] added@[i],
                        ),
                decreases nc - ci,
            {
                added.push(confirmed_here[ci]);
                proof {
                    assert(added@ =~= pre_added + confirmed_here@.subrange(0, ci + 1));
                }
                ci += 1;
            }
            proof {
                assert(self.proposer_levels()[leader] == level);
                assert(level <= self.proposer_best.1);
                assert(confirmed_here@.subrange(0, nc as int) =~= confirmed_here@);
                assert(self.orders() == pre_iter.orders().insert(level, confirmed_here@));
                Self::lemma_concat_orders_agree(
                    self.orders(),
                    pre_iter.orders(),
                    change_begin as int,
                    level - 1,
                );
                assert(self.orders().dom().contains(level));
                assert(added@ =~= concat_orders(
                    self.orders(),
                    change_begin as int,
                    level as int,
                ));
            }
            level += 1;
            current = self.proposer_leader_sequence.get(level);
            proof {
                if current is Some {
                    assert(self.leader_ok_at(level));
                    assert(self.proposer_levels()[self.leaders()[level]] == level);
                }
            }
        }
        let ghost pre_tip = *self;
        self.ledger_tip = if level > 0 {
            level - 1
        } else {
            0
        };
        proof {
            Self::lemma_tip_only_changed(pre_tip, *self);
            assert(self.orders_bounded()) by {
                assert forall|l: u64| #[trigger] self.orders().dom().contains(l)
                    implies l <= self.ledger_tip by {
                    assert(pre_tip.orders().dom().contains(l));
                    assert(l < level);
                }
                assert(self.ledger_tip <= self.proposer_best.1);
            }
            assert(self.leader_exact()) by {
                assert forall|l: u64| #[trigger] self.leaders().dom().contains(l)
                    implies self.elected(l) == Some(self.leaders()[l]) by {
                    assert(old(self).leaders().dom().contains(l));
                    assert(old(self).elected(l) == Some(old(self).leaders()[l]));
                }
            }
            assert(self.ledger_frontier()) by {
                if level > 0 {
                    assert(self.ledger_tip == level - 1);
                    assert(!self.leaders().dom().contains((self.ledger_tip + 1) as u64));
                } else {
                    assert(self.ledger_tip == 0 && !self.leaders().dom().contains(0u64));
                }
            }
            assert(added@ == concat_orders(
                self.orders(),
                change_begin as int,
                self.ledger_tip as int,
            )) by {
                if level == 0 {
                    assert(!self.orders().dom().contains(0u64));
                    assert(concat_orders(self.orders(), change_begin as int, 0)
                        =~= concat_orders(self.orders(), change_begin as int, -1));
                }
            }
            assert(self.inv());
        }
        added
    }

    /// Changing only the ledger order table and the unconfirmed set keeps
    /// every elected leader sound.
    proof fn lemma_ledger_writes_keep_leaders(pre: BlockChain, post: BlockChain)
        requires
            pre.leader_wf(),
            post.leaders() == pre.leaders(),
            post.proposer_levels() == pre.proposer_levels(),
            post.votes() == pre.votes(),
            post.spec_num_chains() == pre.spec_num_chains(),
        ensures
            post.leader_wf(),
    {
        assert forall|l: u64| #[trigger] post.leaders().dom().contains(l)
            implies post.leader_ok_at(l) by {
            assert(pre.leader_ok_at(l));
        }
    }

    /// Retire every ledger level from `change_begin` to the tip, then
    /// reconfirm upward from there. Returns the proposer blocks added to
    /// and removed from the ledger.
    fn rebuild_ledger(&mut self, change_begin: u64) -> (r: (Vec<H256>, Vec<H256>))
        requires
            old(self).inv_sans_frontier(),
            change_begin <= old(self).proposer_best.1 + 1,
            forall|l: u64|
                #[trigger] old(self).orders().dom().contains(l) && l < change_begin ==> old(
                    self,
                ).leaders().dom().contains(l),
        ensures
            final(self).inv(),
            *final(self) == (BlockChain {
                proposer_ledger_order: final(self).proposer_ledger_order,
                unconfirmed_proposers: final(self).unconfirmed_proposers,
                ledger_tip: final(self).ledger_tip,
                ..*old(self)
            }),
            r.1@ == concat_orders(
                old(self).orders(),
                change_begin as int,
                old(self).spec_ledger_tip() as int,
            ),
            r.0@ == concat_orders(
                final(self).orders(),
                change_begin as int,
                final(self).spec_ledger_tip() as int,
            ),
            forall|l: u64|
                l < change_begin ==> (#[trigger] final(self).orders().dom().contains(l) == old(
                    self,
                ).orders().dom().contains(l) && (final(self).orders().dom().contains(l)
                    ==> final(self).orders()[l] == old(self).orders()[l])),
            forall|i: int|
                0 <= i < r.0@.len() ==> old(self).proposer_levels().dom().contains(
                    #[trigger] r.0@[i],
                ),
            forall|i: int|
                0 <= i < r.1@.len() ==> old(self).proposer_levels().dom().contains(
                    #[trigger] r.1@[i],
                ),
    {
        let removed = self.deconfirm_levels(change_begin);
        proof {
            Self::lemma_ledger_writes_keep_leaders(*old(self), *self);
            Self::lemma_leader_complete_same(*old(self), *self);
            assert forall|l: u64| #[trigger] self.orders().dom().contains(l)
                implies self.leaders().dom().contains(l) by {
                assert(old(self).orders().dom().contains(l));
                assert(l < change_begin);
            }
            assert(self.leader_exact()) by {
                assert forall|l: u64| #[trigger] self.leaders().dom().contains(l)
                    implies self.elected(l) == Some(self.leaders()[l]) by {
                    assert(old(self).leaders().dom().contains(l));
                    assert(old(self).elected(l) == Some(old(self).leaders()[l]));
                }
            }
        }
        let added = self.reconfirm_levels(change_begin);
        (added, removed)
    }

    /// A state differing from a core-invariant-bearing one only in its
    /// ledger tip keeps the core invariant.
    proof fn lemma_tip_only_changed(pre: BlockChain, post: BlockChain)
        requires
            pre.inv_core(),
            pre.leader_wf(),
            pre.leader_complete(),
            post == (BlockChain { ledger_tip: post.ledger_tip, ..pre }),
        ensures
            post.inv_core(),
            post.leader_wf(),
            post.leader_complete(),
    {
        assert(post.orders() == pre.orders());
        assert(post.votes() == pre.votes());
        assert(post.proposer_levels() == pre.proposer_levels());
        assert(post.voter_levels() == pre.voter_levels());
        assert(post.voter_chains() == pre.voter_chains());
        assert(post.voted_levels() == pre.voted_levels());
        assert(post.tree() == pre.tree());
        assert(post.timestamps() == pre.timestamps());
        assert(post.difficulties() == pre.difficulties());
        assert(post.parents() == pre.parents());
        assert(post.vote_edges() == pre.vote_edges());
        assert(post.voter_parents() == pre.voter_parents());
        assert(post.tx_refs() == pre.tx_refs());
        assert(post.proposer_refs() == pre.proposer_refs());
        assert(post.spec_best_proposer() == pre.spec_best_proposer());
        assert(post.spec_best_voters() == pre.spec_best_voters());
        assert(post.spec_unreferred_transactions() == pre.spec_unreferred_transactions());
        assert(post.spec_num_chains() == pre.spec_num_chains());
        assert(post.leaders() == pre.leaders());
        assert(post.spec_unconfirmed_proposers() == pre.spec_unconfirmed_proposers());
        assert(post.spec_unreferred_proposers() == pre.spec_unreferred_proposers());
        assert(post.proposer_graph_wf());
        assert(post.proposer_tree_wf());
        assert(post.proposer_best_wf());
        assert(post.voter_graph_wf());
        assert(post.voter_best_wf());
        assert(post.votes_wf());
        Self::lemma_ledger_wf_same(pre, post);
        assert forall|l: u64| #[trigger] post.leaders().dom().contains(l)
            implies post.leader_ok_at(l) by {
            assert(pre.leader_ok_at(l));
        }
        Self::lemma_leader_complete_same(pre, post);
    }

    /// Retiring one ledger level keeps the core invariant: its blocks
    /// return to the unconfirmed set.
    #[verifier::rlimit(100)]
    proof fn lemma_deconfirm_level_inv(pre: BlockChain, post: BlockChain, level: u64)
        requires
            pre.inv_core(),
            pre.orders().dom().contains(level),
            post == (BlockChain {
                proposer_ledger_order: post.proposer_ledger_order,
                unconfirmed_proposers: post.unconfirmed_proposers,
                ..pre
            }),
            post.proposer_ledger_order.wf(),
            post.unconfirmed_proposers.wf(),
            post.orders() == pre.orders().remove(level),
            post.spec_unconfirmed_proposers() == pre.spec_unconfirmed_proposers().union(
                pre.orders()[level].to_set(),
            ),
        ensures
            post.inv_core(),
    {
        assert(post.votes() == pre.votes());
        assert(post.proposer_levels() == pre.proposer_levels());
        assert(post.voter_levels() == pre.voter_levels());
        assert(post.voter_chains() == pre.voter_chains());
        assert(post.voted_levels() == pre.voted_levels());
        assert(post.tree() == pre.tree());
        assert(post.timestamps() == pre.timestamps());
        assert(post.difficulties() == pre.difficulties());
        assert(post.parents() == pre.parents());
        assert(post.vote_edges() == pre.vote_edges());
        assert(post.voter_parents() == pre.voter_parents());
        assert(post.tx_refs() == pre.tx_refs());
        assert(post.proposer_refs() == pre.proposer_refs());
        assert(post.spec_best_proposer() == pre.spec_best_proposer());
        assert(post.spec_best_voters() == pre.spec_best_voters());
        assert(post.spec_unreferred_proposers() == pre.spec_unreferred_proposers());
        assert(post.spec_unreferred_transactions() == pre.spec_unreferred_transactions());
        assert(post.spec_num_chains() == pre.spec_num_chains());
        assert(post.proposer_graph_wf());
        assert(post.proposer_tree_wf());
        assert(post.proposer_best_wf());
        assert(post.voter_graph_wf());
        assert(post.voter_best_wf());
        assert(post.votes_wf());
        assert(post.ledger_wf()) by {
            assert forall|l: u64| #[trigger] post.orders().dom().contains(l) implies {
                &&& post.orders()[l].no_duplicates()
                &&& forall|i: int|
                    0 <= i < post.orders()[l].len() ==> post.proposer_levels().dom().contains(
                        #[trigger] post.orders()[l][i],
                    )
            } by {
                assert(pre.orders().dom().contains(l));
                assert(post.orders()[l] == pre.orders()[l]);
            }
            assert forall|l1: u64, l2: u64, h: H256|
                #[trigger] post.confirmed_at(l1, h) && #[trigger] post.confirmed_at(l2, h)
                implies l1 == l2 by {
                assert(pre.confirmed_at(l1, h) && pre.confirmed_at(l2, h));
            }
            assert forall|h: H256| #[trigger] post.proposer_levels().dom().contains(h) implies (
            post.spec_unconfirmed_proposers().contains(h) <==> !post.confirmed(h)) by {
                if pre.orders()[level].to_set().contains(h) {
                    assert(pre.confirmed_at(level, h));
                    assert(!pre.spec_unconfirmed_proposers().contains(h));
                    assert(post.spec_unconfirmed_proposers().contains(h));
                    if post.confirmed(h) {
                        let lv = choose|lv: u64| post.confirmed_at(lv, h);
                        assert(lv != level);
                        assert(pre.confirmed_at(lv, h));
                    }
                } else {
                    assert(post.spec_unconfirmed_proposers().contains(h)
                        == pre.spec_unconfirmed_proposers().contains(h));
                    if pre.confirmed(h) {
                        let lv = choose|lv: u64| pre.confirmed_at(lv, h);
                        if lv == level {
                            assert(pre.orders()[level].contains(h));
                            let w = choose|w: int|
                                0 <= w < pre.orders()[level].len() && pre.orders()[level][w] == h;
                            assert(pre.orders()[level].to_set().contains(h));
                        }
                        assert(lv != level);
                        assert(post.confirmed_at(lv, h));
                    }
                    if post.confirmed(h) {
                        let lv = choose|lv: u64| post.confirmed_at(lv, h);
                        assert(pre.confirmed_at(lv, h));
                    }
                }
            }
        }
    }
}

} // verus!

verus! {

/// The transaction references of a run of proposer blocks, concatenated
/// in order.
pub open spec fn concat_tx_refs(m: Map<H256, Seq<H256>>, s: Seq<H256>) -> Seq<H256>
    decreases s.len(),
{
    if s.len() == 0 {
        Seq::empty()
    } else {
        concat_tx_refs(m, s.drop_last()) + m[s.last()]
    }
}

impl BlockChain {
    /// Translate a run of proposer blocks into the transaction blocks
    /// they cite, preserving order.
    #[verifier::loop_isolation(false)]
    fn collect_tx_refs(&self, list: &Vec<H256>) -> (r: Vec<H256>)
        requires
            self.inv(),
            forall|i: int|
                0 <= i < list@.len() ==> self.proposer_levels().dom().contains(
                    #[trigger] list@[i],
                ),
        ensures
            r@ == concat_tx_refs(self.tx_refs(), list@),
    {
        let mut r: Vec<H256> = Vec::new();
        let n = list.len();
        let mut i: usize = 0;
        proof {
            assert(list@.subrange(0, 0) =~= Seq::<H256>::empty());
        }
        while i < n
            invariant
                0 <= i <= n,
                r@ == concat_tx_refs(self.tx_refs(), list@.subrange(0, i as int)),
            decreases n - i,
        {
            let txs = self.transaction_ref_neighbor.at(&list[i]);
            let m = txs.len();
            let mut j: usize = 0;
            while j < m
                invariant
                    0 <= j <= m,
                    m == txs.len(),
                    i < n,
                    txs@ == self.tx_refs()[list@[i as int]],
                    r@ == concat_tx_refs(self.tx_refs(), list@.subrange(0, i as int))
                        + txs@.subrange(0, j as int),
                decreases m - j,
            {
                r.push(txs[j]);
                proof {
                    assert(txs@.subrange(0, j as int).push(txs@[j as int]) =~= txs@.subrange(
                        0,
                        j + 1,
                    ));
                    assert((concat_tx_refs(self.tx_refs(), list@.subrange(0, i as int))
                        + txs@.subrange(0, j as int)).push(txs@[j as int]) =~= concat_tx_refs(
                        self.tx_refs(),
                        list@.subrange(0, i as int),
                    ) + txs@.subrange(0, j + 1));
                }
                j += 1;
            }
            proof {
                let sub1 = list@.subrange(0, i + 1);
                assert(sub1.drop_last() =~= list@.subrange(0, i as int));
                assert(sub1.last() == list@[i as int]);
                assert(txs@.subrange(0, m as int) =~= txs@);
            }
            i += 1;
        }
        proof {
            assert(list@.subrange(0, n as int) =~= list@);
        }
        r
    }

    /// Everything `insert_block` promises about a voter block: the
    /// metadata is recorded; a block that does not beat its chain's best
    /// tip changes no vote and no ledger state; one that extends the best
    /// tip in place merges exactly its own votes at its level.
    /// The full operand batch of a main-chain switch: remove the
    /// abandoned branch's votes, add the adopted branch's, then add the
    /// new block's own votes at its level, in that order.
    pub open spec fn reorg_ops(
        vp: Map<H256, H256>,
        ve: Map<H256, Seq<H256>>,
        vl: Map<H256, u64>,
        to0: H256,
        from0: H256,
        chain: u16,
        l: u64,
        own: Seq<H256>,
    ) -> Seq<TargetedOp> {
        Self::reorg_removed(vp, ve, vl, to0, from0).map(
            |i: int, rv: (H256, u64)| (rv.0, (false, chain, rv.1)),
        ) + Self::reorg_added(vp, ve, vl, to0, from0).map(
            |i: int, av: (H256, u64)| (av.0, (true, chain, av.1)),
        ) + own.map(|i: int, v: H256| (v, (true, chain, l)))
    }

    /// The returned delta relative to one rebuild point: the transaction
    /// blocks of the proposer blocks confirmed from `cb` up to the new
    /// tip, and of those that were confirmed from `cb` up to the old tip;
    /// every ledger level below `cb` is untouched.
    pub open spec fn ledger_delta_at(
        pre: BlockChain,
        post: BlockChain,
        r: (Vec<H256>, Vec<H256>),
        cb: u64,
    ) -> bool {
        &&& r.0@ == concat_tx_refs(
            post.tx_refs(),
            concat_orders(post.orders(), cb as int, post.spec_ledger_tip() as int),
        )
        &&& r.1@ == concat_tx_refs(
            pre.tx_refs(),
            concat_orders(pre.orders(), cb as int, pre.spec_ledger_tip() as int),
        )
        &&& forall|l: u64|
            l < cb ==> (#[trigger] post.orders().dom().contains(l) == pre.orders().dom().contains(
                l,
            ) && (post.orders().dom().contains(l) ==> post.orders()[l] == pre.orders()[l]))
    }

    /// The returned pair is the ledger delta of some rebuild point.
    pub open spec fn ledger_delta_returned(
        pre: BlockChain,
        post: BlockChain,
        r: (Vec<H256>, Vec<H256>),
    ) -> bool {
        exists|cb: u64| #[trigger] Self::ledger_delta_at(pre, post, r, cb)
    }

    pub open spec fn voter_inserted(
        pre: BlockChain,
        post: BlockChain,
        hash: H256,
        parent: H256,
        c: crate::block::voter::Content,
    ) -> bool {
        let chain = pre.voter_chains()[c.voter_parent];
        let l = (pre.voter_levels()[c.voter_parent] + 1) as u64;
        let prev = pre.spec_best_voters()[chain as int];
        &&& Self::voter_inserted_meta(pre, post, hash, parent, c)
        &&& l <= prev.1 ==> Self::voter_no_reorg(pre, post)
        &&& (c.voter_parent == prev.0 && l > prev.1) ==> post.votes() == apply_vote_ops_spec(
            pre.votes(),
            c.votes@.map(|i: int, v: H256| (v, (true, chain, l))),
        )
        &&& (c.voter_parent != prev.0 && l > prev.1) ==> post.votes() == apply_vote_ops_spec(
            pre.votes(),
            Self::reorg_ops(
                post.voter_parents(),
                post.vote_edges(),
                post.voter_levels(),
                c.voter_parent,
                prev.0,
                chain,
                l,
                c.votes@,
            ),
        )
    }

    /// Build the operand batch of one voter insertion: the removals of
    /// the abandoned branch, the additions of the adopted branch, then
    /// the block's own votes at its level.
    #[verifier::loop_isolation(false)]
    fn assemble_vote_ops(
        removed_votes: &Vec<(H256, u64)>,
        added_votes: &Vec<(H256, u64)>,
        own: &Vec<H256>,
        chain: u16,
        level: u64,
    ) -> (ops: Vec<TargetedOp>)
        ensures
            ops@ == removed_votes@.map(
                |j: int, rv: (H256, u64)| (rv.0, (false, chain, rv.1)),
            ) + added_votes@.map(|j: int, av: (H256, u64)| (av.0, (true, chain, av.1)))
                + own@.map(|k: int, v: H256| (v, (true, chain, level))),
    {
        let mut ops: Vec<TargetedOp> = Vec::new();
        let nr = removed_votes.len();
        let mut i: usize = 0;
        while i < nr
            invariant
                0 <= i <= nr,
                ops@ == removed_votes@.subrange(0, i as int).map(
                    |j: int, rv: (H256, u64)| (rv.0, (false, chain, rv.1)),
                ),
            decreases nr - i,
        {
            let rv = removed_votes[i];
            ops.push((rv.0, (false, chain, rv.1)));
            proof {
                assert(ops@ =~= removed_votes@.subrange(0, i + 1).map(
                    |j: int, rv2: (H256, u64)| (rv2.0, (false, chain, rv2.1)),
                ));
            }
            i += 1;
        }
        let ghost removed_ops = ops@;
        proof {
            assert(removed_votes@.subrange(0, nr as int) =~= removed_votes@);
        }
        let na = added_votes.len();
        let mut i: usize = 0;
        while i < na
            invariant
                0 <= i <= na,
                ops@ == removed_ops + added_votes@.subrange(0, i as int).map(
                    |j: int, av: (H256, u64)| (av.0, (true, chain, av.1)),
                ),
            decreases na - i,
        {
            let av = added_votes[i];
            ops.push((av.0, (true, chain, av.1)));
            proof {
                assert(ops@ =~= removed_ops + added_votes@.subrange(0, i + 1).map(
                    |j: int, av2: (H256, u64)| (av2.0, (true, chain, av2.1)),
                ));
            }
            i += 1;
        }
        let ghost pre_own = ops@;
        proof {
            assert(added_votes@.subrange(0, na as int) =~= added_votes@);
        }
        let nv = own.len();
        let mut i: usize = 0;
        while i < nv
            invariant
                0 <= i <= nv,
                ops@ == pre_own + own@.subrange(0, i as int).map(
                    |k: int, v: H256| (v, (true, chain, level)),
                ),
            decreases nv - i,
        {
            let v = own[i];
            ops.push((v, (true, chain, level)));
            proof {
                assert(ops@ =~= pre_own + own@.subrange(0, i + 1).map(
                    |k: int, v2: H256| (v2, (true, chain, level)),
                ));
            }
            i += 1;
        }
        proof {
            assert(own@.subrange(0, nv as int) =~= own@);
        }
        ops
    }

    fn insert_voter_block(
        &mut self,
        hash: H256,
        parent: H256,
        content: &crate::block::voter::Content,
    ) -> (r: (Vec<H256>, Vec<H256>))
        requires
            old(self).inv(),
            !old(self).known(hash),
            old(self).voter_levels().dom().contains(content.voter_parent),
            old(self).voter_levels()[content.voter_parent] < u64::MAX - 1,
            old(self).proposer_levels().dom().contains(parent),
            forall|i: int|
                0 <= i < content.votes@.len() ==> old(self).proposer_levels().dom().contains(
                    #[trigger] content.votes@[i],
                ),
        ensures
            final(self).inv(),
            Self::voter_inserted(*old(self), *final(self), hash, parent, *content),
            Self::ledger_delta_returned(*old(self), *final(self), r),
            (old(self).voter_levels()[content.voter_parent] + 1) as u64 <= old(
                self,
            ).spec_best_voters()[old(self).voter_chains()[content.voter_parent] as int].1
                ==> r.0@.len() == 0 && r.1@.len() == 0,
    {
        proof {
            let b0 = old(self).proposer_best.0;
            assert(old(self).proposer_levels().dom().contains(b0));
            assert(old(self).proposer_levels()[b0] < u64::MAX) by {
                if b0 != proposer_genesis_spec() {
                } else {
                    assert(old(self).proposer_levels()[b0] == 0);
                }
            }
            assert(old(self).spec_ledger_tip() < u64::MAX);
        }
        let (previous_best, previous_best_level, self_chain, self_level) =
            self.insert_voter_metadata(hash, parent, content);
        if self_level <= previous_best_level {
            let empty_added: Vec<H256> = Vec::new();
            let empty_removed: Vec<H256> = Vec::new();
            proof {
                Self::lemma_no_reorg_delta(*old(self), *self, (empty_added, empty_removed));
            }
            return (empty_added, empty_removed);
        }
        let ghost after_meta = *self;

        // compute the vote delta of switching the main chain
        let (added_votes, removed_votes) = if content.voter_parent == previous_best {
            (Vec::new(), Vec::new())
        } else {
            proof {
                assert(self.voter_levels().dom().contains(content.voter_parent)) by {
                    assert(old(self).voter_levels().dom().contains(content.voter_parent));
                }
                assert(self.voter_levels().dom().contains(previous_best));
                assert(self.voter_chains()[content.voter_parent] == self_chain);
                assert(self.voter_chains()[previous_best] == self_chain);
                assert(self.voter_levels()[previous_best] == previous_best_level);
                assert(self.voter_levels()[content.voter_parent] == self_level - 1);
            }
            self.vote_delta(content.voter_parent, previous_best)
        };

        // assemble the merge operands: removals of the abandoned branch,
        // additions of the adopted branch, then the new block's own votes
        let ops = Self::assemble_vote_ops(
            &removed_votes,
            &added_votes,
            &content.votes,
            self_chain,
            self_level,
        );
        proof {
            assert forall|j: int| 0 <= j < ops@.len() implies self.proposer_levels().dom()
                .contains((#[trigger] ops@[j]).0) by {
                let rlen = removed_votes@.len() as int;
                let alen = added_votes@.len() as int;
                if j < rlen {
                    assert(ops@[j].0 == removed_votes@[j].0);
                } else if j < rlen + alen {
                    assert(ops@[j].0 == added_votes@[j - rlen].0);
                } else {
                    assert(ops@[j].0 == content.votes@[j - rlen - alen]);
                }
            }
        }
        let affected_set = self.apply_vote_ops(&ops);
        let affected = affected_set.to_vec();
        proof {
            Self::lemma_affected_as_vec(*self, after_meta, affected_set@, affected@);
        }
        let change_begin = self.update_leaders(&affected);
        let cb = match change_begin {
            None => {
                let empty_added: Vec<H256> = Vec::new();
                let empty_removed: Vec<H256> = Vec::new();
                proof {
                    Self::lemma_voter_frames(
                        *old(self),
                        after_meta,
                        *self,
                        hash,
                        parent,
                        *content,
                        ops@,
                        removed_votes@,
                        added_votes@,
                    );
                    Self::lemma_no_reorg_delta(
                        *old(self),
                        *self,
                        (empty_added, empty_removed),
                    );
                }
                return (empty_added, empty_removed);
            },
            Some(cb) => cb,
        };
        let ghost before_rebuild = *self;
        let (added_p, removed_p) = self.rebuild_ledger(cb);
        let removed_tx = self.collect_tx_refs(&removed_p);
        let added_tx = self.collect_tx_refs(&added_p);
        proof {
            Self::lemma_voter_frames(
                *old(self),
                after_meta,
                *self,
                hash,
                parent,
                *content,
                ops@,
                removed_votes@,
                added_votes@,
            );
            assert(before_rebuild.orders() == old(self).orders());
            assert(before_rebuild.spec_ledger_tip() == old(self).spec_ledger_tip());
            assert(Self::ledger_delta_at(
                *old(self),
                *self,
                (added_tx, removed_tx),
                cb,
            ));
        }
        (added_tx, removed_tx)
    }

    /// Restate the leader facts that survive a vote application over the
    /// touched-level vector instead of the touched-level set.
    proof fn lemma_affected_as_vec(
        st: BlockChain,
        after_meta: BlockChain,
        touched: Set<u64>,
        vec: Seq<u64>,
    )
        requires
            vec.to_set() == touched,
            st.leaders() == after_meta.leaders(),
            after_meta.leader_wf(),
            forall|l: u64|
                #[trigger] st.leaders().dom().contains(l) && !touched.contains(l)
                    ==> st.leader_ok_at(l),
            forall|l: u64|
                #[trigger] st.has_qualified(l) && !touched.contains(l)
                    ==> st.leaders().dom().contains(l),
            forall|l: u64|
                #[trigger] st.leaders().dom().contains(l) && !touched.contains(l)
                    ==> st.elected(l) == Some(st.leaders()[l]),
            st.proposer_levels() == after_meta.proposer_levels(),
        ensures
            forall|l: u64|
                #[trigger] st.leaders().dom().contains(l) && !vec.contains(l)
                    ==> st.leader_ok_at(l),
            forall|l: u64|
                #[trigger] st.has_qualified(l) && !vec.contains(l)
                    ==> st.leaders().dom().contains(l),
            forall|l: u64|
                #[trigger] st.leaders().dom().contains(l) && !vec.contains(l) ==> st.elected(l)
                    == Some(st.leaders()[l]),
            forall|l: u64|
                #[trigger] st.leaders().dom().contains(l)
                    ==> st.proposer_levels().dom().contains(st.leaders()[l])
                    && st.proposer_levels()[st.leaders()[l]] == l,
    {
        assert forall|l: u64| !vec.contains(l) implies !touched.contains(l) by {
            if touched.contains(l) {
                assert(vec.to_set().contains(l));
            }
        }
        assert forall|l: u64| #[trigger] st.leaders().dom().contains(l) implies {
            &&& st.proposer_levels().dom().contains(st.leaders()[l])
            &&& st.proposer_levels()[st.leaders()[l]] == l
        } by {
            assert(after_meta.leaders().dom().contains(l));
            assert(after_meta.leader_ok_at(l));
        }
    }

    /// A call that leaves orders and tip alone returns the empty delta
    /// of the rebuild point just above the tip.
    proof fn lemma_no_reorg_delta(pre: BlockChain, post: BlockChain, r: (Vec<H256>, Vec<H256>))
        requires
            pre.spec_ledger_tip() < u64::MAX,
            post.orders() == pre.orders(),
            post.tx_refs() == pre.tx_refs(),
            post.spec_ledger_tip() == pre.spec_ledger_tip(),
            r.0@ == Seq::<H256>::empty(),
            r.1@ == Seq::<H256>::empty(),
        ensures
            Self::ledger_delta_returned(pre, post, r),
    {
        let cb = (pre.spec_ledger_tip() + 1) as u64;
        assert(concat_orders(pre.orders(), cb as int, pre.spec_ledger_tip() as int)
            =~= Seq::<H256>::empty());
        assert(concat_tx_refs(pre.tx_refs(), Seq::<H256>::empty()) =~= Seq::<H256>::empty());
        assert(Self::ledger_delta_at(pre, post, r, cb));
    }

    /// Compose the frame conditions of the voting phases back onto the
    /// state as it was before the voter block arrived.
    #[verifier::rlimit(100)]
    proof fn lemma_voter_frames(
        pre: BlockChain,
        after_meta: BlockChain,
        post: BlockChain,
        hash: H256,
        parent: H256,
        c: crate::block::voter::Content,
        ops: Seq<TargetedOp>,
        removed_pairs: Seq<(H256, u64)>,
        added_pairs: Seq<(H256, u64)>,
    )
        requires
            Self::voter_inserted_meta(pre, after_meta, hash, parent, c),
            (pre.voter_levels()[c.voter_parent] + 1) as u64
                > pre.spec_best_voters()[pre.voter_chains()[c.voter_parent] as int].1,
            post.parents() == after_meta.parents(),
            post.voter_parents() == after_meta.voter_parents(),
            post.voter_levels() == after_meta.voter_levels(),
            post.voter_chains() == after_meta.voter_chains(),
            post.voted_levels() == after_meta.voted_levels(),
            post.vote_edges() == after_meta.vote_edges(),
            post.spec_best_voters() == after_meta.spec_best_voters(),
            post.proposer_levels() == after_meta.proposer_levels(),
            post.tree() == after_meta.tree(),
            post.tx_refs() == after_meta.tx_refs(),
            post.proposer_refs() == after_meta.proposer_refs(),
            post.timestamps() == after_meta.timestamps(),
            post.difficulties() == after_meta.difficulties(),
            post.spec_best_proposer() == after_meta.spec_best_proposer(),
            post.spec_unreferred_proposers() == after_meta.spec_unreferred_proposers(),
            post.spec_unreferred_transactions() == after_meta.spec_unreferred_transactions(),
            post.spec_num_chains() == after_meta.spec_num_chains(),
            after_meta.votes() == pre.votes(),
            post.votes() == apply_vote_ops_spec(after_meta.votes(), ops),
            c.voter_parent == pre.spec_best_voters()[pre.voter_chains()[c.voter_parent] as int].0
                ==> removed_pairs == Seq::<(H256, u64)>::empty() && added_pairs == Seq::<
                (H256, u64),
            >::empty(),
            c.voter_parent != pre.spec_best_voters()[pre.voter_chains()[c.voter_parent] as int].0
                ==> removed_pairs == Self::reorg_removed(
                after_meta.voter_parents(),
                after_meta.vote_edges(),
                after_meta.voter_levels(),
                c.voter_parent,
                pre.spec_best_voters()[pre.voter_chains()[c.voter_parent] as int].0,
            ) && added_pairs == Self::reorg_added(
                after_meta.voter_parents(),
                after_meta.vote_edges(),
                after_meta.voter_levels(),
                c.voter_parent,
                pre.spec_best_voters()[pre.voter_chains()[c.voter_parent] as int].0,
            ),
            ops == removed_pairs.map(
                |j: int, rv: (H256, u64)| (
                    rv.0,
                    (false, pre.voter_chains()[c.voter_parent], rv.1),
                ),
            ) + added_pairs.map(
                |j: int, av: (H256, u64)| (
                    av.0,
                    (true, pre.voter_chains()[c.voter_parent], av.1),
                ),
            ) + c.votes@.map(
                |k: int, v: H256| (
                    v,
                    (
                        true,
                        pre.voter_chains()[c.voter_parent],
                        (pre.voter_levels()[c.voter_parent] + 1) as u64,
                    ),
                ),
            ),
        ensures
            Self::voter_inserted(pre, post, hash, parent, c),
    {
        let chain = pre.voter_chains()[c.voter_parent];
        let l = (pre.voter_levels()[c.voter_parent] + 1) as u64;
        let prev = pre.spec_best_voters()[chain as int];
        assert(after_meta.votes() == pre.votes());
        if c.voter_parent == prev.0 {
            assert(ops =~= c.votes@.map(|k: int, v: H256| (v, (true, chain, l))));
        } else {
            assert(ops =~= Self::reorg_ops(
                post.voter_parents(),
                post.vote_edges(),
                post.voter_levels(),
                c.voter_parent,
                prev.0,
                chain,
                l,
                c.votes@,
            ));
        }
    }
}

} // verus!

verus! {

impl BlockChain {
    /// Insert a validated block. Returns the transaction blocks that this
    /// insertion confirmed and deconfirmed, in that order.
    pub fn insert_block(&mut self, block: &Block) -> (r: (Vec<H256>, Vec<H256>))
        requires
            old(self).inv(),
            old(self).can_insert(*block),
        ensures
            final(self).inv(),
            final(self).spec_num_chains() == old(self).spec_num_chains(),
            match block.content {
                Content::Transaction(_) => Self::transaction_inserted(
                    *old(self),
                    *final(self),
                    block.hash,
                    block.parent,
                ) && r.0@.len() == 0 && r.1@.len() == 0,
                Content::Proposer(c) => Self::proposer_inserted(
                    *old(self),
                    *final(self),
                    block.hash,
                    block.parent,
                    block.timestamp,
                    c,
                ) && r.0@.len() == 0 && r.1@.len() == 0,
                Content::Voter(c) => Self::voter_inserted(
                    *old(self),
                    *final(self),
                    block.hash,
                    block.parent,
                    c,
                ) && Self::ledger_delta_returned(*old(self), *final(self), r) && ((old(
                    self,
                ).voter_levels()[c.voter_parent] + 1) as u64 <= old(
                    self,
                ).spec_best_voters()[old(self).voter_chains()[c.voter_parent] as int].1
                    ==> r.0@.len() == 0 && r.1@.len() == 0),
            },
    {
        match &block.content {
            Content::Transaction(_) => {
                self.insert_transaction_block(block.hash, block.parent);
                (Vec::new(), Vec::new())
            },
            Content::Proposer(content) => {
                self.insert_proposer_block(block.hash, block.parent, block.timestamp, content);
                (Vec::new(), Vec::new())
            },
            Content::Voter(content) => self.insert_voter_block(block.hash, block.parent, content),
        }
    }
}

} // verus!

verus! {

/// The ledger orders of the levels `lo..=hi` that exist, concatenated in
/// level order.
pub open spec fn concat_orders(m: Map<u64, Seq<H256>>, lo: int, hi: int) -> Seq<H256>
    decreases hi + 1 - lo,
{
    if lo > hi {
        Seq::empty()
    } else {
        concat_orders(m, lo, hi - 1) + if m.dom().contains(hi as u64) {
            m[hi as u64]
        } else {
            Seq::empty()
        }
    }
}

impl BlockChain {
    /// Collect the ledger orders of the levels `lo..=hi` that exist,
    /// concatenated in level order.
    #[verifier::loop_isolation(false)]
    fn collect_orders_range(&self, lo: u64, hi: u64) -> (r: Vec<H256>)
        requires
            self.proposer_ledger_order.wf(),
            hi < u64::MAX,
        ensures
            r@ == concat_orders(self.orders(), lo as int, hi as int),
    {
        let mut collected: Vec<H256> = Vec::new();
        let mut level: u64 = lo;
        if level > hi {
            proof {
                assert(collected@ =~= concat_orders(self.orders(), lo as int, hi as int));
            }
            return collected;
        }
        while level <= hi
            invariant
                lo <= level <= hi + 1,
                collected@ == concat_orders(self.orders(), lo as int, level - 1),
            decreases hi + 1 - level,
        {
            let ghost pre_list = collected@;
            match self.proposer_ledger_order.get(level) {
                None => {},
                Some(blocks) => {
                    let nb = blocks.len();
                    let mut bi: usize = 0;
                    while bi < nb
                        invariant
                            0 <= bi <= nb,
                            nb == blocks.len(),
                            blocks@ == self.orders()[level],
                            collected@ == pre_list + blocks@.subrange(0, bi as int),
                        decreases nb - bi,
                    {
                        collected.push(blocks[bi]);
                        proof {
                            assert((pre_list + blocks@.subrange(0, bi as int)).push(
                                blocks@[bi as int],
                            ) =~= pre_list + blocks@.subrange(0, bi + 1));
                        }
                        bi += 1;
                    }
                    proof {
                        assert(blocks@.subrange(0, nb as int) =~= blocks@);
                    }
                },
            }
            proof {
                assert(collected@ =~= concat_orders(self.orders(), lo as int, level as int));
            }
            level += 1;
        }
        collected
    }

    /// Every block of a concatenated order range comes out of one of the
    /// range's orders.
    proof fn lemma_concat_orders_members(m: Map<u64, Seq<H256>>, lo: int, hi: int, allowed: Set<
        H256,
    >)
        requires
            forall|l: u64|
                #[trigger] m.dom().contains(l) ==> forall|i: int|
                    0 <= i < m[l].len() ==> allowed.contains(#[trigger] m[l][i]),
        ensures
            forall|i: int|
                0 <= i < concat_orders(m, lo, hi).len() ==> allowed.contains(
                    #[trigger] concat_orders(m, lo, hi)[i],
                ),
        decreases hi + 1 - lo,
    {
        if lo <= hi {
            Self::lemma_concat_orders_members(m, lo, hi - 1, allowed);
            assert forall|i: int| 0 <= i < concat_orders(m, lo, hi).len() implies allowed
                .contains(#[trigger] concat_orders(m, lo, hi)[i]) by {
                let head = concat_orders(m, lo, hi - 1);
                if i < head.len() {
                    assert(concat_orders(m, lo, hi)[i] == head[i]);
                } else {
                    assert(m.dom().contains(hi as u64));
                    assert(concat_orders(m, lo, hi)[i] == m[hi as u64][i - head.len()]);
                }
            }
        }
    }

    /// Two order tables agreeing on a level range concatenate alike over
    /// it.
    proof fn lemma_concat_orders_agree(
        m1: Map<u64, Seq<H256>>,
        m2: Map<u64, Seq<H256>>,
        lo: int,
        hi: int,
    )
        requires
            0 <= lo,
            hi <= u64::MAX,
            forall|l: u64|
                lo <= l as int <= hi ==> (#[trigger] m1.dom().contains(l) == m2.dom().contains(l)
                    && (m1.dom().contains(l) ==> m1[l] == m2[l])),
        ensures
            concat_orders(m1, lo, hi) == concat_orders(m2, lo, hi),
        decreases hi + 1 - lo,
    {
        if lo <= hi {
            Self::lemma_concat_orders_agree(m1, m2, lo, hi - 1);
            let lu = hi as u64;
            assert(lu as int == hi);
            assert(m1.dom().contains(lu) == m2.dom().contains(lu));
            if m1.dom().contains(lu) {
                assert(m1[lu] == m2[lu]);
            }
        }
    }

    /// Pair each proposer block of a list with the transaction blocks it
    /// cites.
    #[verifier::loop_isolation(false)]
    fn pair_with_tx_refs(&self, list: &Vec<H256>) -> (r: Vec<(H256, Vec<H256>)>)
        requires
            self.transaction_ref_neighbor.wf(),
            forall|i: int|
                0 <= i < list@.len() ==> self.tx_refs().dom().contains(#[trigger] list@[i]),
        ensures
            r@.len() == list@.len(),
            forall|i: int|
                0 <= i < r@.len() ==> (#[trigger] r@[i]).0 == list@[i] && r@[i].1@
                    == self.tx_refs()[list@[i]],
    {
        let mut r: Vec<(H256, Vec<H256>)> = Vec::new();
        let np = list.len();
        let mut i: usize = 0;
        while i < np
            invariant
                0 <= i <= np,
                r@.len() == i,
                forall|j: int|
                    0 <= j < i ==> (#[trigger] r@[j]).0 == list@[j] && r@[j].1@
                        == self.tx_refs()[list@[j]],
            decreases np - i,
        {
            let h = list[i];
            let txs = self.transaction_ref_neighbor.at(&h);
            r.push((h, txs));
            i += 1;
        }
        r
    }

    /// The confirmed proposer blocks of the last `limit` ledger levels,
    /// each with the transaction blocks it cites.
    #[verifier::rlimit(100)]
    pub fn proposer_transaction_in_ledger(&self, limit: u64) -> (r: Vec<(H256, Vec<H256>)>)
        requires
            self.inv(),
        ensures
            ({
                let bottom = if self.spec_ledger_tip() > limit {
                    (self.spec_ledger_tip() - limit) as u64
                } else {
                    0u64
                };
                let blocks = concat_orders(
                    self.orders(),
                    bottom as int,
                    self.spec_ledger_tip() as int,
                );
                &&& r@.len() == blocks.len()
                &&& forall|i: int|
                    0 <= i < r@.len() ==> (#[trigger] r@[i]).0 == blocks[i] && r@[i].1@
                        == self.tx_refs()[blocks[i]]
            }),
    {
        let ledger_tip = self.ledger_tip;
        let ledger_bottom: u64 = if ledger_tip > limit {
            ledger_tip - limit
        } else {
            0
        };
        proof {
            let b0 = self.proposer_best.0;
            assert(self.proposer_levels().dom().contains(b0));
            assert(self.proposer_levels()[b0] < u64::MAX) by {
                if b0 != proposer_genesis_spec() {
                } else {
                    assert(self.proposer_levels()[b0] == 0);
                }
            }
            assert(ledger_tip < u64::MAX);
        }
        let blocks = self.collect_orders_range(ledger_bottom, ledger_tip);
        proof {
            Self::lemma_concat_orders_members(
                self.orders(),
                ledger_bottom as int,
                ledger_tip as int,
                self.proposer_levels().dom(),
            );
            assert forall|i: int| 0 <= i < blocks@.len() implies self.tx_refs().dom().contains(
                #[trigger] blocks@[i],
            ) by {
                assert(self.proposer_levels().dom().contains(blocks@[i]));
            }
        }
        self.pair_with_tx_refs(&blocks)
    }

    /// The genesis blocks are always present: the proposer genesis at
    /// level zero, and each chain's voter genesis at level zero on its
    /// chain.
    pub proof fn lemma_genesis_present(&self, c: u16)
        requires
            self.inv(),
            (c as int) < self.spec_num_chains() as int,
        ensures
            self.proposer_levels().dom().contains(proposer_genesis_spec()),
            self.proposer_levels()[proposer_genesis_spec()] == 0,
            self.voter_levels().dom().contains(voter_genesis_spec(c)),
            self.voter_levels()[voter_genesis_spec(c)] == 0,
            self.voter_chains()[voter_genesis_spec(c)] == c,
            self.voted_levels().dom().contains(voter_genesis_spec(c)),
    {
    }

    /// Every elected leader is a proposer block of its level whose vote
    /// set holds strictly more than `⌊N/2⌋ + 1` votes.
    pub proof fn lemma_leader_majority(&self, l: u64)
        requires
            self.inv(),
            self.leaders().dom().contains(l),
        ensures
            self.proposer_levels().dom().contains(self.leaders()[l]),
            self.proposer_levels()[self.leaders()[l]] == l,
            self.votes().dom().contains(self.leaders()[l]),
            self.votes()[self.leaders()[l]].len() > self.threshold(),
    {
    }

    /// A proposer level has an elected leader exactly when one of its
    /// proposer blocks has a vote set over the majority threshold: every
    /// leader is qualified, and a level with a qualified block is led.
    pub proof fn lemma_leader_iff_qualified(&self, l: u64)
        requires
            self.inv(),
        ensures
            self.leaders().dom().contains(l) ==> self.qualified(self.leaders()[l]),
            self.has_qualified(l) ==> self.leaders().dom().contains(l),
    {
    }

    /// The unconfirmed set is the exact complement, within the known
    /// proposer blocks, of the union of all ledger orders.
    pub proof fn lemma_unconfirmed_complement(&self, h: H256)
        requires
            self.inv(),
            self.proposer_levels().dom().contains(h),
        ensures
            self.spec_unconfirmed_proposers().contains(h) <==> !self.confirmed(h),
    {
    }

    /// No proposer block is confirmed through two different levels.
    pub proof fn lemma_confirmed_once(&self, l1: u64, l2: u64, h: H256)
        requires
            self.inv(),
            self.confirmed_at(l1, h),
            self.confirmed_at(l2, h),
        ensures
            l1 == l2,
    {
    }

    /// A ledger level's order holds known proposer blocks, each once, and
    /// sits at or below the ledger tip.
    pub proof fn lemma_order_wellformed(&self, l: u64)
        requires
            self.inv(),
            self.orders().dom().contains(l),
        ensures
            l <= self.spec_ledger_tip(),
            self.orders()[l].no_duplicates(),
            forall|i: int|
                0 <= i < self.orders()[l].len() ==> self.proposer_levels().dom().contains(
                    #[trigger] self.orders()[l][i],
                ),
    {
    }

    /// Every non-genesis proposer block sits one level above its parent.
    pub proof fn lemma_proposer_parent_level(&self, h: H256)
        requires
            self.inv(),
            self.proposer_levels().dom().contains(h),
            h != proposer_genesis_spec(),
        ensures
            self.parents().dom().contains(h),
            self.proposer_levels().dom().contains(self.parents()[h]),
            self.proposer_levels()[self.parents()[h]] + 1 == self.proposer_levels()[h],
    {
    }

    /// Every non-genesis voter block sits one level above its voter
    /// parent, on the same chain.
    pub proof fn lemma_voter_parent_level(&self, v: H256)
        requires
            self.inv(),
            self.voter_levels().dom().contains(v),
            self.voter_levels()[v] >= 1,
        ensures
            self.voter_parents().dom().contains(v),
            self.voter_levels().dom().contains(self.voter_parents()[v]),
            self.voter_levels()[self.voter_parents()[v]] + 1 == self.voter_levels()[v],
            self.voter_chains()[self.voter_parents()[v]] == self.voter_chains()[v],
    {
    }

    /// The proposer best tip is a known proposer block of maximal level,
    /// and the first block that arrived at that level.
    pub proof fn lemma_best_proposer_maximal(&self, h: H256)
        requires
            self.inv(),
            self.proposer_levels().dom().contains(h),
        ensures
            self.proposer_levels().dom().contains(self.spec_best_proposer().0),
            self.proposer_levels()[self.spec_best_proposer().0] == self.spec_best_proposer().1,
            self.proposer_levels()[h] <= self.spec_best_proposer().1,
            self.tree()[self.spec_best_proposer().1][0] == self.spec_best_proposer().0,
    {
    }

    /// Each chain's best tip is a voter block of that chain at maximal
    /// level among the chain's blocks.
    pub proof fn lemma_best_voter_maximal(&self, v: H256)
        requires
            self.inv(),
            self.voter_levels().dom().contains(v),
        ensures
            ({
                let c = self.voter_chains()[v] as int;
                &&& self.voter_levels().dom().contains(self.spec_best_voters()[c].0)
                &&& self.voter_levels()[self.spec_best_voters()[c].0]
                    == self.spec_best_voters()[c].1
                &&& self.voter_chains()[self.spec_best_voters()[c].0] as int == c
                &&& self.voter_levels()[v] <= self.spec_best_voters()[c].1
            }),
    {
    }
}

} // verus!

verus! {

/// The leaders of the levels `lo..=hi` that exist, in level order.
pub open spec fn leaders_range(m: Map<u64, H256>, lo: int, hi: int) -> Seq<(u64, H256)>
    decreases hi + 1 - lo,
{
    if lo > hi {
        Seq::empty()
    } else {
        leaders_range(m, lo, hi - 1) + if m.dom().contains(hi as u64) {
            seq![(hi as u64, m[hi as u64])]
        } else {
            Seq::empty()
        }
    }
}

/// A plain snapshot of the chain state for external visualization. The
/// caller renders it; the engine only gathers it.
#[derive(Debug)]
pub struct DumpData {
    /// Levels from the dump's bottom to the best proposer level, each
    /// with its blocks in arrival order.
    pub proposer_levels: Vec<(u64, Vec<H256>)>,
    /// The levels with an elected leader in the same range.
    pub proposer_leaders: Vec<(u64, H256)>,
    /// Each voter chain's best tip and its level.
    pub voter_longest: Vec<(H256, u64)>,
    /// The confirmed proposer blocks of the dumped levels.
    pub proposer_in_ledger: Vec<H256>,
    /// The transaction blocks those confirmed blocks cite.
    pub transaction_in_ledger: Vec<H256>,
    /// The transaction blocks no proposer block cites.
    pub transaction_unreferred: Vec<H256>,
    pub ledger_tip: u64,
}

impl BlockChain {
    /// Gather a snapshot of the chain state, bounded below by `limit`
    /// levels under the ledger tip.
    #[verifier::loop_isolation(false)]
    #[verifier::spinoff_prover]
    #[verifier::rlimit(100)]
    pub fn dump(&self, limit: u64) -> (r: DumpData)
        requires
            self.inv(),
        ensures
            ({
                let bottom = if self.spec_ledger_tip() > limit {
                    (self.spec_ledger_tip() - limit) as u64
                } else {
                    0u64
                };
                let blocks = concat_orders(
                    self.orders(),
                    bottom as int,
                    self.spec_ledger_tip() as int,
                );
                &&& r.voter_longest@ == self.spec_best_voters()
                &&& r.ledger_tip == self.spec_ledger_tip()
                &&& r.transaction_unreferred@.to_set() == self.spec_unreferred_transactions()
                &&& r.proposer_in_ledger@ == blocks
                &&& r.transaction_in_ledger@ == concat_tx_refs(self.tx_refs(), blocks)
                &&& r.proposer_levels@.len() == self.spec_best_proposer().1 + 1 - bottom
                &&& forall|i: int|
                    0 <= i < r.proposer_levels@.len() ==> (#[trigger] r.proposer_levels@[i]).0
                        == bottom + i && r.proposer_levels@[i].1@ == self.tree()[(bottom
                        + i) as u64]
                &&& r.proposer_leaders@ == leaders_range(
                    self.leaders(),
                    bottom as int,
                    self.spec_best_proposer().1 as int,
                )
            }),
    {
        let ledger_tip = self.ledger_tip;
        let ledger_bottom: u64 = if ledger_tip > limit {
            ledger_tip - limit
        } else {
            0
        };
        proof {
            let b0 = self.proposer_best.0;
            assert(self.proposer_levels().dom().contains(b0));
            assert(self.proposer_levels()[b0] < u64::MAX) by {
                if b0 != proposer_genesis_spec() {
                } else {
                    assert(self.proposer_levels()[b0] == 0);
                }
            }
            assert(self.proposer_best.1 < u64::MAX);
            assert(ledger_tip < u64::MAX);
            assert(ledger_bottom <= ledger_tip);
            assert(ledger_tip <= self.proposer_best.1);
        }
        let best_level = self.proposer_best.1;

        let voter_longest = clone_items(&self.voter_best);
        let transaction_unreferred = self.unreferred_transactions.to_vec();

        let mut proposer_levels: Vec<(u64, Vec<H256>)> = Vec::new();
        let mut proposer_leaders: Vec<(u64, H256)> = Vec::new();
        let mut level: u64 = ledger_bottom;
        while level <= best_level
            invariant
                ledger_bottom <= level <= best_level + 1,
                best_level == self.spec_best_proposer().1,
                best_level < u64::MAX,
                proposer_levels@.len() == level - ledger_bottom,
                forall|i: int|
                    0 <= i < proposer_levels@.len() ==> (#[trigger] proposer_levels@[i]).0
                        == ledger_bottom + i && proposer_levels@[i].1@ == self.tree()[(
                    ledger_bottom + i) as u64],
                proposer_leaders@ == leaders_range(
                    self.leaders(),
                    ledger_bottom as int,
                    level - 1,
                ),
            decreases best_level + 1 - level,
        {
            proof {
                assert(self.tree().dom().contains(level));
            }
            let blocks = self.proposer_tree_level.at(level);
            proposer_levels.push((level, blocks));
            let ghost pre_leaders = proposer_leaders@;
            match self.proposer_leader_sequence.get(level) {
                None => {},
                Some(ld) => {
                    proposer_leaders.push((level, ld));
                    proof {
                        assert(proposer_leaders@ =~= pre_leaders + seq![(level, ld)]);
                    }
                },
            }
            proof {
                assert(proposer_leaders@ =~= leaders_range(
                    self.leaders(),
                    ledger_bottom as int,
                    level as int,
                ));
            }
            level += 1;
        }

        let mut proposer_in_ledger: Vec<H256> = Vec::new();
        let mut level: u64 = ledger_bottom;
        while level <= ledger_tip
            invariant
                ledger_bottom <= level <= ledger_tip + 1,
                ledger_tip < u64::MAX,
                proposer_in_ledger@ == concat_orders(
                    self.orders(),
                    ledger_bottom as int,
                    level - 1,
                ),
                forall|i: int|
                    0 <= i < proposer_in_ledger@.len()
                        ==> self.proposer_levels().dom().contains(
                        #[trigger] proposer_in_ledger@[i],
                    ),
            decreases ledger_tip + 1 - level,
        {
            let ghost pre_list = proposer_in_ledger@;
            match self.proposer_ledger_order.get(level) {
                None => {},
                Some(blocks) => {
                    let nb = blocks.len();
                    let mut bi: usize = 0;
                    while bi < nb
                        invariant
                            0 <= bi <= nb,
                            nb == blocks.len(),
                            blocks@ == self.orders()[level],
                            self.orders().dom().contains(level),
                            proposer_in_ledger@ == pre_list + blocks@.subrange(0, bi as int),
                            forall|i: int|
                                0 <= i < proposer_in_ledger@.len()
                                    ==> self.proposer_levels().dom().contains(
                                    #[trigger] proposer_in_ledger@[i],
                                ),
                        decreases nb - bi,
                    {
                        proposer_in_ledger.push(blocks[bi]);
                        proof {
                            assert((pre_list + blocks@.subrange(0, bi as int)).push(
                                blocks@[bi as int],
                            ) =~= pre_list + blocks@.subrange(0, bi + 1));
                        }
                        bi += 1;
                    }
                    proof {
                        assert(blocks@.subrange(0, nb as int) =~= blocks@);
                    }
                },
            }
            proof {
                assert(proposer_in_ledger@ =~= concat_orders(
                    self.orders(),
                    ledger_bottom as int,
                    level as int,
                ));
            }
            level += 1;
        }
        let transaction_in_ledger = self.collect_tx_refs(&proposer_in_ledger);

        DumpData {
            proposer_levels,
            proposer_leaders,
            voter_longest,
            proposer_in_ledger,
            transaction_in_ledger,
            transaction_unreferred,
            ledger_tip,
        }
    }
}

} // verus!
