//! Forgetting what lies more than five rounds behind the decided events.

use vstd::prelude::*;

use crate::event::EventHash;
use crate::events::{event_hashes, present_only, survivors};
use crate::hashgraph::{rounds_wf, Hashgraph};
use crate::round::{purged_round, record_hashes, Round};

verus! {

/// Whether the round is purged when everything up to round `limit` is:
/// every such round is, whether it was purged before or not, since a
/// purged round can have taken records since.
pub open spec fn to_purge(round: Round, limit: u64) -> bool {
    round.id <= limit
}

/// The hashes on record in those of the first `n` rounds that are purged
/// with `limit`, round by round.
pub open spec fn purge_list(rounds: Seq<Round>, limit: u64, n: int) -> Seq<EventHash>
    decreases n,
{
    if n <= 0 {
        Seq::empty()
    } else if to_purge(rounds[n - 1], limit) {
        purge_list(rounds, limit, n - 1) + record_hashes(rounds[n - 1].events@)
    } else {
        purge_list(rounds, limit, n - 1)
    }
}

/// `post` is `pre` after a purge behind the round `max_round`: nothing
/// happens up to round 5; beyond, every round up to the fifth before
/// `max_round` is purged, and the store forgets what those rounds had on
/// record.
pub open spec fn purged(pre: Hashgraph, max_round: u64, post: Hashgraph) -> bool {
    if max_round <= 5 {
        post == pre
    } else {
        let limit = (max_round - 5) as u64;
        let hashes = purge_list(pre.rounds@, limit, pre.rounds@.len() as int);
        &&& post.transactions == pre.transactions
        &&& post.internal_transactions == pre.internal_transactions
        &&& post.rounds@.len() == pre.rounds@.len()
        &&& forall|k: int|
            0 <= k < pre.rounds@.len() ==> if to_purge(pre.rounds@[k], limit) {
                purged_round(pre.rounds@[k], #[trigger] post.rounds@[k])
            } else {
                post.rounds@[k] == pre.rounds@[k]
            }
        &&& post.events.store@ == survivors(pre.events.store@, hashes)
        &&& post.events.undecided@ == present_only(
            pre.events.undecided@,
            event_hashes(post.events.store@),
        )
    }
}

/// What a round that is purged has on record is on the list.
pub proof fn lemma_purge_list_holds(rounds: Seq<Round>, limit: u64, n: int, k: int, j: int)
    requires
        0 <= k < n <= rounds.len(),
        to_purge(rounds[k], limit),
        0 <= j < rounds[k].events@.len(),
    ensures
        crate::events::listed(purge_list(rounds, limit, n), rounds[k].events@[j].hash),
    decreases n,
{
    let h = rounds[k].events@[j].hash;
    let list = purge_list(rounds, limit, n);
    if k == n - 1 {
        let before = purge_list(rounds, limit, n - 1);
        let records = record_hashes(rounds[k].events@);
        assert(list == before + records);
        assert(list[before.len() + j] == records[j]);
        crate::index::lemma_first_index_of(list, h);
    } else {
        lemma_purge_list_holds(rounds, limit, n - 1, k, j);
        let before = purge_list(rounds, limit, n - 1);
        crate::index::lemma_first_index_of(before, h);
        let i = crate::index::first_index_of(before, h);
        assert(list[i] == before[i]);
        crate::index::lemma_first_index_of(list, h);
    }
}

impl Hashgraph {
    /// Purges every round up to the fifth before `max_round`.
    pub fn purge(&mut self, max_round: u64)
        requires
            old(self).wf(),
        ensures
            final(self).wf(),
            purged(*old(self), max_round, *final(self)),
    {
        if max_round <= 5 {
            return ;
        }
        let limit = max_round - 5;
        let ghost pre = self.rounds@;
        let mut hashes: Vec<EventHash> = Vec::new();
        let mut k: usize = 0;
        while k < self.rounds.len()
            invariant
                rounds_wf(pre),
                self.events == old(self).events,
                self.transactions == old(self).transactions,
                self.internal_transactions == old(self).internal_transactions,
                self.rounds@.len() == pre.len(),
                k <= pre.len(),
                hashes@ == purge_list(pre, limit, k as int),
                forall|j: int| k <= j < pre.len() ==> #[trigger] self.rounds@[j] == pre[j],
                forall|j: int|
                    0 <= j < k ==> if to_purge(pre[j], limit) {
                        purged_round(pre[j], #[trigger] self.rounds@[j])
                    } else {
                        self.rounds@[j] == pre[j]
                    },
            decreases pre.len() - k,
        {
            assert(self.rounds@[k as int] == pre[k as int]);
            if self.rounds[k].id <= limit {
                let mut j: usize = 0;
                let ghost base = hashes@;
                let ghost records = record_hashes(pre[k as int].events@);
                while j < self.rounds[k].events.len()
                    invariant
                        k < self.rounds@.len(),
                        self.rounds@[k as int] == pre[k as int],
                        records == record_hashes(pre[k as int].events@),
                        j <= records.len(),
                        hashes@ == base + records.take(j as int),
                    decreases records.len() - j,
                {
                    hashes.push(self.rounds[k].events[j].hash);
                    proof {
                        assert(records.take(j + 1) =~= records.take(j as int).push(records[j as int]));
                        assert(hashes@ =~= base + records.take(j + 1));
                    }
                    j += 1;
                }
                proof {
                    assert(records.take(records.len() as int) =~= records);
                }
                self.rounds[k].purge();
            }
            k += 1;
        }
        proof {
            assert forall|j: int| 0 <= j < pre.len() implies self.rounds@[j].id == pre[j].id
                && self.rounds@[j].peers == pre[j].peers by {
                if to_purge(pre[j], limit) {
                    assert(purged_round(pre[j], self.rounds@[j]));
                }
            }
            crate::fame::lemma_same_frames_wf(pre, self.rounds@);
        }
        self.events.purge(hashes);
    }
}

} // verus!
