//! Agreement between nodes on the shares of an epoch.
use crate::bytes::arrays_equal;
use crate::collections::{
    lemma_map_of, lemma_sorted_distinct, map_of, sorted_by_key, OrdKey, OrdMap,
};
use crate::crypto::elapsed;
use crate::error::Error;
use crate::miner::{
    capped_sum, held_under, holds_share, knows, picks, pool_full, pool_root, pool_step,
    share_hash_of, share_pushed, Share, SharePool,
};
use crate::types::{current_timestamp, Hash32, MinerId, PeerId, Timestamp};
use vstd::prelude::*;

verus! {

/// What a peer holds to be the root of the shares of an epoch.
#[derive(Debug, Clone, Copy, PartialEq, Eq)]
pub struct EpochCommit {
    /// The epoch.
    pub epoch: u32,
    /// The root of the shares.
    pub merkle_root: Hash32,
    /// When it was told.
    pub timestamp: Timestamp,
    /// Who told it.
    pub peer_id: PeerId,
}

/// Whether a commit counts at `now`: it is for the epoch and not an hour old.
pub open spec fn commit_counts(c: EpochCommit, epoch: u32, now: Timestamp) -> bool {
    c.epoch == epoch && elapsed(now, c.timestamp) < 3600
}

impl EpochCommit {
    /// A commit made at `now`.
    pub fn new_at(epoch: u32, merkle_root: Hash32, peer_id: PeerId, now: Timestamp) -> (r: Self)
        ensures
            r == (EpochCommit { epoch, merkle_root, timestamp: now, peer_id }),
    {
        EpochCommit { epoch, merkle_root, timestamp: now, peer_id }
    }

    /// A commit made at the time that the clock shows.
    pub fn new(epoch: u32, merkle_root: Hash32, peer_id: PeerId) -> (r: Self)
        ensures
            r == (EpochCommit { epoch, merkle_root, timestamp: r.timestamp, peer_id }),
    {
        Self::new_at(epoch, merkle_root, peer_id, current_timestamp())
    }

    /// Whether the commit counts at `now`.
    pub fn is_valid_at(&self, current_epoch: u32, now: Timestamp) -> (r: bool)
        ensures
            r == commit_counts(*self, current_epoch, now),
    {
        if self.epoch != current_epoch {
            return false;
        }
        now < self.timestamp || now - self.timestamp < 3600
    }

    /// Whether the commit counts at the time that the clock shows.
    pub fn is_valid(&self, current_epoch: u32) -> (r: bool)
        ensures
            exists|now: Timestamp| r == #[trigger] commit_counts(*self, current_epoch, now),
            self.epoch != current_epoch ==> !r,
    {
        let now: Timestamp = current_timestamp();
        self.is_valid_at(current_epoch, now)
    }
}

/// A request for shares of an epoch.
#[derive(Debug)]
pub struct ShareResyncRequest {
    /// The epoch.
    pub epoch: u32,
    /// The miners, where not all are meant.
    pub miner_ids: Option<Vec<MinerId>>,
    /// How many shares to pass over.
    pub offset: u32,
    /// How many shares to send at most.
    pub limit: u32,
}

impl ShareResyncRequest {
    /// A request for the shares of all miners.
    pub fn new(epoch: u32, offset: u32, limit: u32) -> (r: Self)
        ensures
            r == (ShareResyncRequest { epoch, miner_ids: None, offset, limit }),
    {
        ShareResyncRequest { epoch, miner_ids: None, offset, limit }
    }

    /// A request for the shares of some miners.
    pub fn with_miners(epoch: u32, miners: Vec<MinerId>, offset: u32, limit: u32) -> (r: Self)
        ensures
            r == (ShareResyncRequest { epoch, miner_ids: Some(miners), offset, limit }),
    {
        ShareResyncRequest { epoch, miner_ids: Some(miners), offset, limit }
    }
}

/// Shares that were asked for.
#[derive(Debug)]
pub struct ShareResyncResponse {
    /// The epoch.
    pub epoch: u32,
    /// The shares.
    pub shares: Vec<Share>,
    /// How many there are in all.
    pub total: u32,
    /// Where the next ones begin, zero where these are the last.
    pub next_offset: u32,
}

/// How a node stands to its peers.
#[derive(Debug, Clone, Copy, PartialEq, Eq)]
pub enum SyncStatus {
    /// They hold the same shares.
    InSync,
    /// The node has no shares.
    NoLocalShares,
    /// The peers do not agree.
    NoConsensus,
    /// The peer holds other shares than most.
    PeerOutOfSync,
    /// The node holds other shares than most, whose root this is.
    NeedsResync(Hash32),
    /// The peer is banned.
    PeerBanned,
}

/// The roots that peers told, and the shares of the node.
pub struct ShareSyncManager {
    /// What each peer told last.
    pub peer_commits: OrdMap<PeerId, EpochCommit>,
    /// Until when peers are banned that hold other shares than most.
    pub banned_peers: OrdMap<PeerId, Timestamp>,
    /// The epoch.
    pub current_epoch: u32,
    /// The shares of the node.
    pub share_pool: Option<SharePool>,
}

/// The peers whose last commit has a root.
pub open spec fn backers(commits: Map<PeerId, EpochCommit>, root: Hash32) -> Set<PeerId> {
    commits.dom().filter(|p: PeerId| commits[p].merkle_root == root)
}

/// How many peers back a root.
pub open spec fn votes_for(commits: Map<PeerId, EpochCommit>, root: Hash32) -> nat {
    backers(commits, root).len()
}

/// Whether `root` is the last of the roots that most peers back, and at least five of them do.
pub open spec fn is_consensus(commits: Map<PeerId, EpochCommit>, root: Hash32) -> bool {
    &&& votes_for(commits, root) >= 5
    &&& forall|k: Hash32| #[trigger]
        votes_for(commits, k) <= votes_for(commits, root) && (root.before(k) ==> votes_for(
            commits,
            k,
        ) < votes_for(commits, root))
}

/// One more peer adds its vote to the root of its commit, and to no other.
proof fn lemma_vote_added(
    commits: Map<PeerId, EpochCommit>,
    p: PeerId,
    c: EpochCommit,
    root: Hash32,
)
    requires
        commits.dom().finite(),
        !commits.contains_key(p),
    ensures
        votes_for(commits.insert(p, c), root) == votes_for(commits, root) + if c.merkle_root
            == root {
            1nat
        } else {
            0nat
        },
{
    let before = backers(commits, root);
    let after = backers(commits.insert(p, c), root);
    if c.merkle_root == root {
        assert(after =~= before.insert(p));
    } else {
        assert(after =~= before);
    }
}

/// The manager after a peer that is not banned told a root: it takes the place of what the peer
/// told before.
pub open spec fn commit_noted(before: ShareSyncManager, after: ShareSyncManager, c: EpochCommit) -> bool {
    &&& after.peer_commits@ == before.peer_commits@.insert(c.peer_id, c)
    &&& after.current_epoch == before.current_epoch
    &&& after.share_pool == before.share_pool
}

/// The manager and the answer after a peer told a root at `now`.
pub open spec fn commit_processed(
    before: ShareSyncManager,
    after: ShareSyncManager,
    c: EpochCommit,
    now: Timestamp,
    r: SyncStatus,
) -> bool {
    if before.banned_peers@.contains_key(c.peer_id) && now < before.banned_peers@[c.peer_id] {
        after == before && r == SyncStatus::PeerBanned
    } else {
        &&& commit_noted(before, after, c)
        &&& match before.share_pool {
            None => r == SyncStatus::NoLocalShares && after.banned_peers == before.banned_peers,
            Some(pool) => {
                let local = pool_root(pool.share_hashes.members());
                if local == c.merkle_root@ {
                    r == SyncStatus::InSync && after.banned_peers == before.banned_peers
                } else if exists|root: Hash32| is_consensus(after.peer_commits@, root) {
                    exists|root: Hash32|
                        #[trigger] is_consensus(after.peer_commits@, root) && if root@ != local {
                            r == SyncStatus::NeedsResync(root) && after.banned_peers
                                == before.banned_peers
                        } else {
                            r == SyncStatus::PeerOutOfSync && after.banned_peers@
                                == before.banned_peers@.insert(c.peer_id, capped_sum(now, 3600))
                        }
                } else {
                    r == SyncStatus::NoConsensus && after.banned_peers == before.banned_peers
                }
            },
        }
    }
}

/// The pools that taking in shares goes through: each share that is not known is handed in.
pub open spec fn resynced(
    pools: Seq<SharePool>,
    answers: Seq<Result<bool, &'static str>>,
    shares: Seq<Share>,
    n: int,
) -> bool {
    &&& pools.len() == n + 1
    &&& answers.len() == n
    &&& forall|i: int|
        0 <= i < n ==> #[trigger] resync_step(pools[i], pools[i + 1], shares[i], answers[i])
}

/// One step of taking in shares.
pub open spec fn resync_step(
    before: SharePool,
    after: SharePool,
    share: Share,
    answer: Result<bool, &'static str>,
) -> bool {
    if knows(before, share) {
        after == before && answer == Ok::<bool, &'static str>(false)
    } else {
        pool_step(before, after, share, true, answer)
    }
}

/// The shares of the first `n` that were not known.
pub open spec fn unknown_shares(pools: Seq<SharePool>, shares: Seq<Share>, n: int) -> Seq<Share>
    decreases n,
{
    if n <= 0 {
        Seq::empty()
    } else if knows(pools[n - 1], shares[n - 1]) {
        unknown_shares(pools, shares, n - 1)
    } else {
        unknown_shares(pools, shares, n - 1).push(shares[n - 1])
    }
}

/// The bans that are left at `now`: those that did not end a day ago or earlier, as they were.
pub open spec fn bans_cleared(
    before: Map<PeerId, Timestamp>,
    after: Map<PeerId, Timestamp>,
    now: Timestamp,
) -> bool {
    &&& forall|p: PeerId| #[trigger]
        after.contains_key(p) <==> before.contains_key(p) && elapsed(now, before[p]) < 86400
    &&& forall|p: PeerId| #[trigger] after.contains_key(p) ==> after[p] == before[p]
}

impl ShareSyncManager {
    /// Nothing was told.
    pub fn new() -> (r: Self)
        ensures
            r.peer_commits@ == Map::<PeerId, EpochCommit>::empty(),
            r.banned_peers@ == Map::<PeerId, Timestamp>::empty(),
            r.current_epoch == 1,
            r.share_pool is None,
    {
        ShareSyncManager {
            peer_commits: OrdMap::new(),
            banned_peers: OrdMap::new(),
            current_epoch: 1,
            share_pool: None,
        }
    }

    /// Gives the manager the shares of the node.
    pub fn attach_share_pool(&mut self, pool: SharePool)
        ensures
            *final(self) == (ShareSyncManager { share_pool: Some(pool), ..*old(self) }),
    {
        self.share_pool = Some(pool);
    }

    /// The root of the shares of the node.
    pub fn local_root(&self) -> (r: Option<Hash32>)
        ensures
            match r {
                Some(root) => self.share_pool is Some && root@ == pool_root(
                    self.share_pool->0.share_hashes.members(),
                ),
                None => self.share_pool is None,
            },
    {
        match &self.share_pool {
            Some(pool) => Some(pool.calculate_merkle_root()),
            None => None,
        }
    }

    /// Takes note of the root that a peer told at `now`, and says how the node stands to it.
    pub fn process_commit_at(&mut self, commit: EpochCommit, now: Timestamp) -> (r: Result<
        SyncStatus,
        Error,
    >)
        ensures
            r is Ok,
            commit_processed(*old(self), *final(self), commit, now, r->Ok_0),
    {
        let banned: bool = match self.banned_peers.get(&commit.peer_id) {
            Some(until) => now < *until,
            None => false,
        };
        if banned {
            return Ok(SyncStatus::PeerBanned);
        }
        self.peer_commits.insert(commit.peer_id, commit);
        let local = match self.local_root() {
            Some(root) => root,
            None => {
                return Ok(SyncStatus::NoLocalShares);
            },
        };
        proof {
            if local@ == commit.merkle_root@ {
                assert(local =~= commit.merkle_root);
            }
        }
        if arrays_equal(&local, &commit.merkle_root) {
            return Ok(SyncStatus::InSync);
        }
        match self.get_consensus_root() {
            Some(root) => {
                proof {
                    if root@ == local@ {
                        assert(root =~= local);
                    }
                }
                if !arrays_equal(&root, &local) {
                    assert(is_consensus(self.peer_commits@, root) && root@ != local@);
                    Ok(SyncStatus::NeedsResync(root))
                } else {
                    self.check_peer_consensus(&commit.peer_id, root, now);
                    assert(is_consensus(self.peer_commits@, root) && root@ == local@);
                    Ok(SyncStatus::PeerOutOfSync)
                }
            },
            None => Ok(SyncStatus::NoConsensus),
        }
    }

    /// Takes note of the root that a peer told, and says how the node stands to it.
    pub fn process_commit(&mut self, commit: EpochCommit) -> (r: Result<SyncStatus, Error>)
        ensures
            r is Ok,
            exists|now: Timestamp|
                #[trigger] commit_processed(*old(self), *final(self), commit, now, r->Ok_0),
    {
        let now: Timestamp = current_timestamp();
        self.process_commit_at(commit, now)
    }

    /// How many peers back each root that a peer told.
    fn tally(&self) -> (r: OrdMap<Hash32, u64>)
        ensures
            forall|k: Hash32| #[trigger]
                r@.contains_key(k) ==> r@[k] == votes_for(self.peer_commits@, k),
            forall|k: Hash32| #[trigger]
                votes_for(self.peer_commits@, k) > 0 ==> r@.contains_key(k),
    {
        let n: usize = self.peer_commits.len();
        let ghost items = self.peer_commits.items();
        let mut votes: OrdMap<Hash32, u64> = OrdMap::new();
        let mut i: usize = 0;
        proof {
            assert(items.take(0) =~= Seq::empty());
            assert forall|k: Hash32| #[trigger] votes_for(map_of(items.take(0)), k) == 0 by {
                assert(backers(map_of(items.take(0)), k) =~= Set::empty());
            }
        }
        while i < n
            invariant
                i <= n,
                n == items.len(),
                n <= usize::MAX,
                items == self.peer_commits.items(),
                sorted_by_key(items),
                map_of(items.take(i as int)).dom().finite(),
                forall|k: Hash32| #[trigger]
                    votes@.contains_key(k) ==> votes@[k] == votes_for(
                        map_of(items.take(i as int)),
                        k,
                    ) && votes@[k] <= i,
                forall|k: Hash32| #[trigger]
                    votes_for(map_of(items.take(i as int)), k) > 0 ==> votes@.contains_key(k),
            decreases n - i,
        {
            let commit: EpochCommit = *self.peer_commits.value_at(i);
            let ghost before = map_of(items.take(i as int));
            let ghost after = map_of(items.take(i + 1));
            let ghost was = votes@;
            let root: Hash32 = commit.merkle_root;
            let count: u64 = match votes.get(&root) {
                Some(c) => *c,
                None => 0,
            };
            votes.insert(root, count + 1);
            proof {
                let e = items[i as int];
                assert(e.1 == commit);
                assert(items.take(i + 1).drop_last() =~= items.take(i as int));
                assert(after == before.insert(e.0, e.1));
                if before.contains_key(e.0) {
                    let head = items.take(i as int);
                    assert(sorted_by_key(head)) by {
                        assert forall|a: int, b: int|
                            #![trigger head[a], head[b]]
                            0 <= a < b < head.len() implies head[a].0.before(head[b].0) by {
                            assert(items[a].0.before(items[b].0));
                        }
                    }
                    lemma_map_of(head);
                    let j = choose|j: int|
                        0 <= j < i && (#[trigger] items.take(i as int)[j]).0 == e.0;
                    lemma_sorted_distinct(items, j, i as int);
                }
                assert forall|k: Hash32| true implies #[trigger] votes_for(after, k) == votes_for(
                    before,
                    k,
                ) + if root == k {
                    1nat
                } else {
                    0nat
                } by {
                    lemma_vote_added(before, e.0, e.1, k);
                }
                assert forall|k: Hash32| #[trigger] votes@.contains_key(k) implies votes@[k]
                    == votes_for(after, k) && votes@[k] <= i + 1 by {
                    if k != root {
                        assert(was.contains_key(k));
                    }
                }
                assert forall|k: Hash32| #[trigger] votes_for(after, k)
                    > 0 implies votes@.contains_key(k) by {
                    if k != root {
                        assert(votes_for(before, k) > 0);
                    }
                }
            }
            i += 1;
        }
        assert(items.take(n as int) =~= items);
        votes
    }

    /// The root that most peers told last, at least five of them.
    pub fn get_consensus_root(&self) -> (r: Option<Hash32>)
        ensures
            match r {
                Some(root) => is_consensus(self.peer_commits@, root),
                None => forall|k: Hash32| #[trigger] votes_for(self.peer_commits@, k) < 5,
            },
            r is None ==> forall|k: Hash32| !is_consensus(self.peer_commits@, k),
    {
        let tally = self.tally();
        let n: usize = tally.len();
        let ghost commits = self.peer_commits@;
        let ghost items = tally.items();
        let ghost votes = tally@;
        let mut best: Option<usize> = None;
        let mut i: usize = 0;
        while i < n
            invariant
                i <= n,
                n == items.len(),
                items == tally.items(),
                match best {
                    Some(b) => b < i && items[b as int].1 >= 5 && forall|j: int|
                        #![trigger items[j]]
                        0 <= j < i ==> items[j].1 <= items[b as int].1 && (b < j ==> items[j].1
                            < items[b as int].1),
                    None => forall|j: int| 0 <= j < i ==> (#[trigger] items[j]).1 < 5,
                },
            decreases n - i,
        {
            let count: u64 = *tally.value_at(i);
            assert(items[i as int].1 == count);
            if count >= 5 {
                match best {
                    None => {
                        best = Some(i);
                    },
                    Some(b) => {
                        if count >= *tally.value_at(b) {
                            best = Some(i);
                        }
                    },
                }
            }
            i += 1;
        }
        match best {
            Some(b) => {
                let root = tally.key_at(b);
                proof {
                    assert forall|k: Hash32| #[trigger] votes.contains_key(k) implies votes[k]
                        <= votes[root] && (root.before(k) ==> votes[k] < votes[root]) by {
                        let j = choose|j: int| 0 <= j < items.len() && (#[trigger] items[j]).0 == k;
                        assert(items[j].1 == votes[k]);
                        if root.before(k) {
                            if j < b {
                                assert(items[j].0.before(items[b as int].0));
                                Hash32::order_transitive(root, k, root);
                                Hash32::order_irreflexive(root);
                            } else if j == b {
                                Hash32::order_irreflexive(root);
                            }
                        }
                    }
                    assert forall|k: Hash32| #[trigger] votes_for(commits, k) <= votes_for(
                        commits,
                        root,
                    ) && (root.before(k) ==> votes_for(commits, k) < votes_for(commits, root)) by {
                        if votes_for(commits, k) > 0 {
                            assert(votes.contains_key(k));
                        }
                    }
                }
                Some(root)
            },
            None => {
                proof {
                    assert forall|k: Hash32| #[trigger] votes.contains_key(k) implies votes[k]
                        < 5 by {
                        let j = choose|j: int| 0 <= j < items.len() && (#[trigger] items[j]).0 == k;
                        assert(items[j].1 < 5);
                    }
                    assert forall|k: Hash32| #[trigger] votes_for(commits, k) < 5 by {
                        if votes_for(commits, k) > 0 {
                            assert(votes.contains_key(k));
                        }
                    }
                }
                None
            },
        }
    }

    /// Bans a peer for an hour whose last root is not that of most.
    fn check_peer_consensus(&mut self, peer_id: &PeerId, consensus_root: Hash32, now: Timestamp)
        ensures
            *final(self) == (ShareSyncManager {
                banned_peers: final(self).banned_peers,
                ..*old(self)
            }),
            old(self).peer_commits@.contains_key(*peer_id) && old(self).peer_commits@[*peer_id].merkle_root != consensus_root ==> final(self).banned_peers@ == old(self).banned_peers@.insert(
                *peer_id,
                capped_sum(now, 3600),
            ),
            !(old(self).peer_commits@.contains_key(*peer_id) && old(self).peer_commits@[*peer_id].merkle_root != consensus_root) ==> final(self).banned_peers == old(self).banned_peers,
    {
        let differs: bool = match self.peer_commits.get(peer_id) {
            Some(commit) => !arrays_equal(&commit.merkle_root, &consensus_root),
            None => false,
        };
        if differs {
            self.banned_peers.insert(*peer_id, now.saturating_add(3600));
        }
    }

    /// A request for the first shares of an epoch.
    pub fn create_resync_request(&self, epoch: u32) -> (r: ShareResyncRequest)
        ensures
            r == (ShareResyncRequest { epoch, miner_ids: None, offset: 0, limit: 500 }),
    {
        ShareResyncRequest::new(epoch, 0, 500)
    }

    /// Takes in shares that were asked for, in order; those that were not known are handed back.
    /// The first that the pool refuses ends it.
    pub fn process_resync_response(&mut self, response: ShareResyncResponse) -> (r: Result<
        Vec<Share>,
        Error,
    >)
        requires
            old(self).share_pool matches Some(pool) ==> pool.wf(),
        ensures
            final(self).peer_commits == old(self).peer_commits,
            final(self).banned_peers == old(self).banned_peers,
            final(self).current_epoch == old(self).current_epoch,
            match old(self).share_pool {
                None => final(self).share_pool is None && r is Ok && r->Ok_0@ == Seq::<
                    Share,
                >::empty(),
                Some(pool) => {
                    &&& final(self).share_pool is Some
                    &&& final(self).share_pool->0.wf()
                    &&& exists|pools: Seq<SharePool>, answers: Seq<Result<bool, &'static str>>, n: int|
                        {
                            &&& #[trigger] resynced(pools, answers, response.shares@, n)
                            &&& 0 <= n <= response.shares@.len()
                            &&& pools[0] == pool
                            &&& pools[n] == final(self).share_pool->0
                            &&& forall|i: int|
                                0 <= i < n - 1 ==> (#[trigger] answers[i]) is Ok
                            &&& match r {
                                Ok(list) => n == response.shares@.len() && (n > 0 ==> answers[n - 1]
                                    is Ok) && list@ == unknown_shares(pools, response.shares@, n),
                                Err(e) => n > 0 && answers[n - 1] is Err && (e matches Error::ShareError(
                                    words,
                                ) && words@ == answers[n - 1]->Err_0@),
                            }
                        }
                },
            },
    {
        let mut pool = match self.share_pool.take() {
            Some(pool) => pool,
            None => {
                return Ok(Vec::new());
            },
        };
        let shares = response.shares;
        let ghost mut pools: Seq<SharePool> = seq![pool];
        let ghost mut answers: Seq<Result<bool, &'static str>> = Seq::empty();
        let mut fresh: Vec<Share> = Vec::new();
        let mut i: usize = 0;
        while i < shares.len()
            invariant
                i <= shares@.len(),
                shares@ == response.shares@,
                pool.wf(),
                resynced(pools, answers, shares@, i as int),
                pools[0] == old(self).share_pool->0,
                pools[i as int] == pool,
                forall|k: int| 0 <= k < i ==> (#[trigger] answers[k]) is Ok,
                fresh@ == unknown_shares(pools, shares@, i as int),
                old(self).share_pool is Some,
                self.share_pool is None,
                self.peer_commits == old(self).peer_commits,
                self.banned_peers == old(self).banned_peers,
                self.current_epoch == old(self).current_epoch,
            decreases shares@.len() - i,
        {
            let share = shares[i];
            let ghost before = pool;
            let ghost earlier = pools;
            let ghost answered = answers;
            let hash = share.share_hash();
            let known: bool = pool.has_share_like(&share, &hash);
            if !known {
                let answer = pool.add_share(share, true);
                proof {
                    pools = pools.push(pool);
                    answers = answers.push(answer);
                    assert(pools.drop_last() =~= earlier);
                    assert(answers.drop_last() =~= answered);
                    lemma_resync_grows(earlier, pools, answers, shares@, i as int);
                }
                match answer {
                    Ok(_) => {
                        fresh.push(share);
                    },
                    Err(words) => {
                        self.share_pool = Some(pool);
                        return Err(Error::ShareError(words.to_string()));
                    },
                }
            } else {
                proof {
                    pools = pools.push(pool);
                    answers = answers.push(Ok::<bool, &'static str>(false));
                    assert(pools.drop_last() =~= earlier);
                    assert(answers.drop_last() =~= answered);
                    lemma_resync_grows(earlier, pools, answers, shares@, i as int);
                }
            }
            i += 1;
        }
        self.share_pool = Some(pool);
        Ok(fresh)
    }

    /// Begins an epoch at `now`: the roots are forgotten, and so are bans that ended a day ago.
    pub fn new_epoch_at(&mut self, epoch: u32, now: Timestamp)
        ensures
            final(self).current_epoch == epoch,
            final(self).peer_commits@ == Map::<PeerId, EpochCommit>::empty(),
            final(self).share_pool == old(self).share_pool,
            bans_cleared(old(self).banned_peers@, final(self).banned_peers@, now),
    {
        self.current_epoch = epoch;
        self.peer_commits.clear();
        let n: usize = self.banned_peers.len();
        let ghost items = self.banned_peers.items();
        let ghost bans = self.banned_peers@;
        let mut marks: Vec<bool> = Vec::new();
        let mut i: usize = 0;
        while i < n
            invariant
                i <= n,
                n == items.len(),
                items == self.banned_peers.items(),
                marks@.len() == i,
                forall|j: int|
                    0 <= j < i ==> marks@[j] == (elapsed(now, (#[trigger] items[j]).1) < 86400),
            decreases n - i,
        {
            let until: Timestamp = *self.banned_peers.value_at(i);
            assert(items[i as int].1 == until);
            marks.push(now < until || now - until < 86400);
            i += 1;
        }
        self.banned_peers.retain_marked(&marks);
        proof {
            assert forall|p: PeerId| #[trigger] self.banned_peers@.contains_key(p)
                <==> bans.contains_key(p) && elapsed(now, bans[p]) < 86400 by {
                if self.banned_peers@.contains_key(p) {
                    let j = choose|j: int|
                        0 <= j < marks@.len() && marks@[j] && (#[trigger] items[j]).0 == p;
                    assert(bans.contains_key(items[j].0));
                }
                if bans.contains_key(p) && elapsed(now, bans[p]) < 86400 {
                    let j = choose|j: int| 0 <= j < items.len() && (#[trigger] items[j]).0 == p;
                    assert(marks@[j]);
                }
            }
        }
    }

    /// Begins an epoch at the time that the clock shows.
    pub fn new_epoch(&mut self, epoch: u32)
        ensures
            final(self).current_epoch == epoch,
            final(self).peer_commits@ == Map::<PeerId, EpochCommit>::empty(),
            final(self).share_pool == old(self).share_pool,
            exists|now: Timestamp| #[trigger]
                bans_cleared(old(self).banned_peers@, final(self).banned_peers@, now),
    {
        let now: Timestamp = current_timestamp();
        self.new_epoch_at(epoch, now)
    }
}

/// One more step after a run of taking in shares.
proof fn lemma_resync_grows(
    before: Seq<SharePool>,
    pools: Seq<SharePool>,
    answers: Seq<Result<bool, &'static str>>,
    shares: Seq<Share>,
    i: int,
)
    requires
        0 <= i < shares.len(),
        before.len() == i + 1,
        pools.len() == i + 2,
        answers.len() == i + 1,
        pools.drop_last() == before,
        resynced(before, answers.drop_last(), shares, i),
        resync_step(pools[i], pools[i + 1], shares[i], answers[i]),
    ensures
        resynced(pools, answers, shares, i + 1),
        unknown_shares(pools, shares, i) == unknown_shares(before, shares, i),
{
    assert forall|k: int| 0 <= k < i + 1 implies #[trigger] resync_step(
        pools[k],
        pools[k + 1],
        shares[k],
        answers[k],
    ) by {
        if k < i {
            assert(resync_step(before[k], before[k + 1], shares[k], answers.drop_last()[k]));
            assert(before[k] == pools[k]);
            assert(before[k + 1] == pools[k + 1]);
        }
    }
    lemma_unknown_prefix(before, pools, shares, i);
}

proof fn lemma_unknown_prefix(a: Seq<SharePool>, b: Seq<SharePool>, shares: Seq<Share>, n: int)
    requires
        0 <= n <= a.len(),
        n <= b.len(),
        forall|k: int| 0 <= k < n ==> a[k] == b[k],
    ensures
        unknown_shares(a, shares, n) == unknown_shares(b, shares, n),
    decreases n,
{
    if n > 0 {
        lemma_unknown_prefix(a, b, shares, n - 1);
        assert(a[n - 1] == b[n - 1]);
    }
}

/// Whether one of the first `n` shares has the digest of a share.
pub open spec fn digest_among(shares: Seq<Share>, s: Share, n: int) -> bool {
    exists|j: int| 0 <= j < n && share_hash_of(#[trigger] shares[j]) == share_hash_of(s)
}

/// The shares of the first `n` that a pool lacks, each digest once, in order.
pub open spec fn lacked(pool: SharePool, shares: Seq<Share>, n: int) -> Seq<Share>
    decreases n,
{
    if n <= 0 {
        Seq::empty()
    } else if knows(pool, shares[n - 1]) || digest_among(shares, shares[n - 1], n - 1) {
        lacked(pool, shares, n - 1)
    } else {
        lacked(pool, shares, n - 1).push(shares[n - 1])
    }
}

/// Whether a pool drops a share when it is handed another one: that one is new, the pool is full,
/// and it holds a share.
pub open spec fn drops_share(p: SharePool, s: Share) -> bool {
    !knows(p, s) && pool_full(p) && exists|v: MinerId| picks(p.shares@, v)
}

/// A pool that takes in a share without dropping another knows that share besides what it knew.
proof fn lemma_share_known(
    before: SharePool,
    after: SharePool,
    share: Share,
    answer: Result<bool, &'static str>,
    s: Share,
)
    requires
        resync_step(before, after, share, answer),
        answer is Ok,
        !drops_share(before, share),
    ensures
        knows(after, s) == (knows(before, s) || share_hash_of(share) == share_hash_of(s)),
{
    let digest = share_hash_of(s);
    let m = share.miner_id;
    if knows(before, share) {
    } else {
        assert(answer->Ok_0);
        assert(share_pushed(before.shares@, after.shares@, share));
        reveal(held_under);
        if knows(before, s) {
            let (k, i) = choose|k: MinerId, i: int| #[trigger]
                holds_share(before.shares@, k, i) && share_hash_of(before.shares@[k]@[i])
                    == digest;
            assert(holds_share(after.shares@, k, i));
            assert(after.shares@[k]@[i] == before.shares@[k]@[i]);
        }
        if share_hash_of(share) == digest {
            let i = after.shares@[m]@.len() - 1;
            assert(holds_share(after.shares@, m, i));
            assert(after.shares@[m]@[i] == share);
        }
        if knows(after, s) {
            let (k, i) = choose|k: MinerId, i: int| #[trigger]
                holds_share(after.shares@, k, i) && share_hash_of(after.shares@[k]@[i]) == digest;
            if k == m && i == after.shares@[m]@.len() - 1 {
                assert(after.shares@[k]@[i] == share);
            } else {
                assert(holds_share(before.shares@, k, i));
                assert(after.shares@[k]@[i] == before.shares@[k]@[i]);
            }
        }
    }
}

/// Taking in shares without dropping any hands back exactly those that the pool lacked, each once
/// and in order; afterwards the pool knows what it knew and every share that was taken in.
pub proof fn law_resync_lists_what_was_lacking(
    pools: Seq<SharePool>,
    answers: Seq<Result<bool, &'static str>>,
    shares: Seq<Share>,
    n: int,
)
    requires
        0 <= n <= shares.len(),
        resynced(pools, answers, shares, n),
        forall|i: int| 0 <= i < n ==> (#[trigger] answers[i]) is Ok,
        forall|i: int| 0 <= i < n ==> !drops_share(#[trigger] pools[i], shares[i]),
    ensures
        unknown_shares(pools, shares, n) == lacked(pools[0], shares, n),
        forall|s: Share| #[trigger]
            knows(pools[n], s) == (knows(pools[0], s) || digest_among(shares, s, n)),
        forall|i: int, j: int|
            0 <= i < j < lacked(pools[0], shares, n).len() ==> share_hash_of(
                #[trigger] lacked(pools[0], shares, n)[i],
            ) != share_hash_of(#[trigger] lacked(pools[0], shares, n)[j]),
        forall|i: int|
            0 <= i < lacked(pools[0], shares, n).len() ==> digest_among(
                shares,
                #[trigger] lacked(pools[0], shares, n)[i],
                n,
            ),
    decreases n,
{
    if n > 0 {
        let m = n - 1;
        let last = shares[m];
        let head = pools.take(n);
        let said = answers.take(m);
        assert(resynced(head, said, shares, m)) by {
            assert forall|i: int| 0 <= i < m implies #[trigger] resync_step(
                head[i],
                head[i + 1],
                shares[i],
                said[i],
            ) by {
                assert(resync_step(pools[i], pools[i + 1], shares[i], answers[i]));
            }
        }
        assert forall|i: int| 0 <= i < m implies (#[trigger] said[i]) is Ok by {
            assert(answers[i] is Ok);
        }
        assert forall|i: int| 0 <= i < m implies !drops_share(
            #[trigger] head[i],
            shares[i],
        ) by {
            assert(!drops_share(pools[i], shares[i]));
        }
        law_resync_lists_what_was_lacking(head, said, shares, m);
        lemma_unknown_prefix(head, pools, shares, m);
        assert(resync_step(pools[m], pools[m + 1], shares[m], answers[m]));
        assert(knows(head[m], last) == (knows(pools[0], last) || digest_among(shares, last, m)));
        assert forall|s: Share| #[trigger]
            knows(pools[n], s) == (knows(pools[0], s) || digest_among(shares, s, n)) by {
            lemma_share_known(pools[m], pools[n], last, answers[m], s);
            assert(knows(head[m], s) == (knows(pools[0], s) || digest_among(shares, s, m)));
            if digest_among(shares, s, m) {
                let j = choose|j: int|
                    0 <= j < m && share_hash_of(#[trigger] shares[j]) == share_hash_of(s);
                assert(0 <= j < n && share_hash_of(shares[j]) == share_hash_of(s));
            }
        }
        let was = lacked(pools[0], shares, m);
        let now = lacked(pools[0], shares, n);
        assert forall|i: int| 0 <= i < now.len() implies digest_among(
            shares,
            #[trigger] now[i],
            n,
        ) by {
            if i < was.len() {
                assert(digest_among(shares, was[i], m));
                let j = choose|j: int|
                    0 <= j < m && share_hash_of(#[trigger] shares[j]) == share_hash_of(was[i]);
                assert(0 <= j < n && share_hash_of(shares[j]) == share_hash_of(now[i]));
            } else {
                assert(0 <= m < n && share_hash_of(shares[m]) == share_hash_of(now[i]));
            }
        }
        assert forall|i: int, j: int| 0 <= i < j < now.len() implies share_hash_of(
            #[trigger] now[i],
        ) != share_hash_of(#[trigger] now[j]) by {
            if j == was.len() {
                assert(digest_among(shares, was[i], m));
                let x = choose|x: int|
                    0 <= x < m && share_hash_of(#[trigger] shares[x]) == share_hash_of(was[i]);
                assert(!digest_among(shares, last, m));
                assert(share_hash_of(shares[x]) != share_hash_of(last));
            }
        }
    }
}

/// The same shares again change nothing and are none of them handed back.
pub proof fn law_resync_again_is_empty(
    pools: Seq<SharePool>,
    answers: Seq<Result<bool, &'static str>>,
    shares: Seq<Share>,
    again: Seq<SharePool>,
    replies: Seq<Result<bool, &'static str>>,
    n: int,
)
    requires
        resynced(pools, answers, shares, shares.len() as int),
        forall|i: int| 0 <= i < shares.len() ==> (#[trigger] answers[i]) is Ok,
        forall|i: int| 0 <= i < shares.len() ==> !drops_share(#[trigger] pools[i], shares[i]),
        resynced(again, replies, shares, shares.len() as int),
        again[0] == pools[shares.len() as int],
        0 <= n <= shares.len(),
    ensures
        again[n] == again[0],
        unknown_shares(again, shares, n) == Seq::<Share>::empty(),
        forall|i: int| 0 <= i < n ==> (#[trigger] replies[i]) is Ok,
    decreases n,
{
    if n > 0 {
        let m = n - 1;
        law_resync_again_is_empty(pools, answers, shares, again, replies, m);
        law_resync_lists_what_was_lacking(pools, answers, shares, shares.len() as int);
        assert(resync_step(again[m], again[m + 1], shares[m], replies[m]));
        assert(digest_among(shares, shares[m], shares.len() as int)) by {
            assert(share_hash_of(shares[m]) == share_hash_of(shares[m]));
        }
        assert(knows(pools[shares.len() as int], shares[m]));
    }
}

/// Where five peers back a root, and no other root has as many, it is the consensus.
pub proof fn law_five_votes_make_consensus(commits: Map<PeerId, EpochCommit>, root: Hash32)
    requires
        votes_for(commits, root) >= 5,
        forall|k: Hash32| k != root ==> #[trigger] votes_for(commits, k) < votes_for(commits, root),
    ensures
        is_consensus(commits, root),
        forall|k: Hash32| is_consensus(commits, k) ==> k == root,
{
    assert forall|k: Hash32| #[trigger] votes_for(commits, k) <= votes_for(commits, root) && (
    root.before(k) ==> votes_for(commits, k) < votes_for(commits, root)) by {
        if k == root {
            Hash32::order_irreflexive(root);
        }
    }
    assert forall|k: Hash32| is_consensus(commits, k) implies k == root by {
        if k != root {
            assert(votes_for(commits, k) < votes_for(commits, root));
        }
    }
}

/// A peer has one vote: a commit that it repeats adds none, one that it changes moves its vote,
/// and fewer than five peers make no consensus however often they tell their roots.
pub proof fn law_one_peer_one_vote(
    commits: Map<PeerId, EpochCommit>,
    c: EpochCommit,
    root: Hash32,
)
    requires
        commits.dom().finite(),
        commits.contains_key(c.peer_id),
    ensures
        commits[c.peer_id].merkle_root == c.merkle_root ==> votes_for(
            commits.insert(c.peer_id, c),
            root,
        ) == votes_for(commits, root),
        commits[c.peer_id].merkle_root != c.merkle_root ==> votes_for(
            commits.insert(c.peer_id, c),
            c.merkle_root,
        ) == votes_for(commits, c.merkle_root) + 1,
        commits[c.peer_id].merkle_root != c.merkle_root ==> votes_for(
            commits.insert(c.peer_id, c),
            commits[c.peer_id].merkle_root,
        ) + 1 == votes_for(commits, commits[c.peer_id].merkle_root),
        commits.dom().len() < 5 ==> !is_consensus(commits, root),
{
    let before = commits[c.peer_id];
    let rest = commits.remove(c.peer_id);
    assert(rest.insert(c.peer_id, c) =~= commits.insert(c.peer_id, c));
    assert(rest.insert(c.peer_id, before) =~= commits);
    lemma_vote_added(rest, c.peer_id, c, root);
    lemma_vote_added(rest, c.peer_id, before, root);
    lemma_vote_added(rest, c.peer_id, c, c.merkle_root);
    lemma_vote_added(rest, c.peer_id, before, c.merkle_root);
    lemma_vote_added(rest, c.peer_id, c, before.merkle_root);
    lemma_vote_added(rest, c.peer_id, before, before.merkle_root);
    vstd::set_lib::lemma_len_subset(backers(commits, root), commits.dom());
}

/// A commit counts for its own epoch and for less than an hour.
pub proof fn law_commits_count_for_an_hour(c: EpochCommit, epoch: u32, now: Timestamp)
    ensures
        commit_counts(c, epoch, now) <==> c.epoch == epoch && now < c.timestamp + 3_600,
{
}

/// What a commit brings about. From a banned peer it changes nothing. From any other it is noted in
/// place of the last one of that peer. It is in line exactly when its root is the one of the own
/// shares; only a root that five peers back can call the own shares or the peer into doubt, and the
/// peer is banned, for an hour, only where that root is the own one.
pub proof fn law_what_a_commit_brings(
    before: ShareSyncManager,
    after: ShareSyncManager,
    c: EpochCommit,
    now: Timestamp,
    r: SyncStatus,
)
    requires
        commit_processed(before, after, c, now, r),
        now + 3_600 <= u64::MAX,
    ensures
        ({
            let banned = before.banned_peers@.contains_key(c.peer_id) && now
                < before.banned_peers@[c.peer_id];
            let own = pool_root(before.share_pool->0.share_hashes.members());
            &&& banned <==> r == SyncStatus::PeerBanned
            &&& banned ==> after == before
            &&& !banned ==> after.peer_commits@.contains_key(c.peer_id)
                && after.peer_commits@[c.peer_id] == c
            &&& forall|p: PeerId|
                p != c.peer_id ==> (#[trigger] after.peer_commits@.contains_key(p)
                    <==> before.peer_commits@.contains_key(p)) && after.peer_commits@[p]
                    == before.peer_commits@[p]
            &&& r == SyncStatus::NoLocalShares <==> !banned && before.share_pool is None
            &&& r == SyncStatus::InSync <==> !banned && before.share_pool is Some && own
                == c.merkle_root@
            &&& (r matches SyncStatus::NeedsResync(root) ==> root@ != own && own != c.merkle_root@
                && votes_for(after.peer_commits@, root) >= 5)
            &&& r == SyncStatus::PeerOutOfSync ==> own != c.merkle_root@ && (exists|root: Hash32|
                root@ == own && votes_for(after.peer_commits@, root) >= 5)
                && after.banned_peers@.contains_key(c.peer_id) && after.banned_peers@[c.peer_id]
                == now + 3_600
            &&& r != SyncStatus::PeerOutOfSync ==> after.banned_peers == before.banned_peers
            &&& forall|p: PeerId|
                p != c.peer_id ==> (#[trigger] after.banned_peers@.contains_key(p)
                    <==> before.banned_peers@.contains_key(p)) && after.banned_peers@[p]
                    == before.banned_peers@[p]
            &&& after.current_epoch == before.current_epoch
            &&& after.share_pool == before.share_pool
        }),
{
}

/// A ban that ended less than a day ago, or has not ended, is kept as it is; older ones go.
pub proof fn law_bans_are_kept_for_a_day(
    before: Map<PeerId, Timestamp>,
    after: Map<PeerId, Timestamp>,
    now: Timestamp,
    p: PeerId,
)
    requires
        bans_cleared(before, after, now),
    ensures
        after.contains_key(p) <==> before.contains_key(p) && now < before[p] + 86_400,
        after.contains_key(p) ==> after[p] == before[p],
{
    assert(after.contains_key(p) <==> before.contains_key(p) && elapsed(now, before[p]) < 86400);
}

} // verus!
