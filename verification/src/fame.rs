//! Virtual voting: the votes of a new witness on the witnesses of the round
//! before, and the verdicts on the witnesses two rounds back.

use vstd::prelude::*;
use std::collections::HashMap;

use crate::ancestry::{ancestor, strongly_sees};
use crate::event::{Event, EventHash};
use crate::hashgraph::{round_index, rounds_wf, Hashgraph};
use crate::round::{FamousType, Round, RoundEvent};

verus! {

/// The votes of `e` on the witnesses `ws`: yes on those it sees.
pub open spec fn votes_on(s: Seq<Event>, e: Event, ws: Seq<EventHash>) -> Map<EventHash, bool>
    decreases ws.len(),
{
    if ws.len() == 0 {
        Map::empty()
    } else {
        votes_on(s, e, ws.drop_last()).insert(ws.last(), ancestor(s, ws.last(), e))
    }
}

/// Whether the witness `w` of the round `prev` adds a yes on `u` to the
/// count that `e` takes: `e` strongly sees `w`, and `w` voted yes on `u`.
pub open spec fn counts_yes(s: Seq<Event>, e: Event, prev: Round, w: EventHash, u: EventHash) -> bool {
    let i = prev.record_index(w);
    strongly_sees(s, e, w, prev.peers.super_majority) && i >= 0 && prev.events@[i].vote_on(u)
}

/// The yes votes on `u` that `e` collects from the first `n` witnesses of `prev`.
pub open spec fn yes_count(s: Seq<Event>, e: Event, prev: Round, u: EventHash, n: int) -> nat
    decreases n,
{
    if n <= 0 {
        0
    } else {
        yes_count(s, e, prev, u, n - 1) + if counts_yes(s, e, prev, prev.witnesses@[n - 1], u) {
            1nat
        } else {
            0nat
        }
    }
}

/// The verdict on the record `u` once the witness `e` has counted: a
/// witness without a verdict becomes famous where the yes votes reach the
/// `threshold`, and not famous where they do not; a verdict once given stays.
pub open spec fn verdict(s: Seq<Event>, e: Event, prev: Round, threshold: u64, u: RoundEvent) -> FamousType {
    if u.witness && u.famous == FamousType::Undefined {
        if yes_count(s, e, prev, u.hash, prev.witnesses@.len() as int) >= threshold {
            FamousType::True
        } else {
            FamousType::False
        }
    } else {
        u.famous
    }
}

/// Whether `e` votes: it is recorded as a witness in its round, and that
/// round is not the first.
pub open spec fn votes(rounds: Seq<Round>, e: Event) -> bool {
    let k = round_index(rounds, e.round);
    &&& k >= 1
    &&& rounds[k].record_index(e.hash) >= 0
    &&& rounds[k].events@[rounds[k].record_index(e.hash)].witness
}

/// `post` is `pre` with the votes of `e` written to its record.
pub open spec fn voted(pre: Hashgraph, e: Event, post: Hashgraph) -> bool {
    let k = round_index(pre.rounds@, e.round);
    let i = pre.rounds@[k].record_index(e.hash);
    if !votes(pre.rounds@, e) {
        post == pre
    } else {
        &&& post == (Hashgraph { rounds: post.rounds, ..pre })
        &&& post.rounds@.len() == pre.rounds@.len()
        &&& forall|j: int| 0 <= j < pre.rounds@.len() && j != k ==> post.rounds@[j] == pre.rounds@[j]
        &&& post.rounds@[k] == (Round { events: post.rounds@[k].events, ..pre.rounds@[k] })
        &&& post.rounds@[k].events@.len() == pre.rounds@[k].events@.len()
        &&& forall|j: int|
            0 <= j < pre.rounds@[k].events@.len() && j != i ==> post.rounds@[k].events@[j]
                == pre.rounds@[k].events@[j]
        &&& post.rounds@[k].events@[i] == (RoundEvent {
            votes: post.rounds@[k].events@[i].votes,
            ..pre.rounds@[k].events@[i]
        })
        &&& post.rounds@[k].events@[i].votes@ == votes_on(
            pre.events.store@,
            e,
            pre.rounds@[k - 1].witnesses@,
        )
    }
}

/// `post` is `pre` with the verdicts that the witness `e` brings about on
/// the records of the round two before its own.
pub open spec fn famed(pre: Hashgraph, e: Event, post: Hashgraph) -> bool {
    let k = round_index(pre.rounds@, e.round);
    if !(votes(pre.rounds@, e) && k >= 2) {
        post == pre
    } else {
        &&& post == (Hashgraph { rounds: post.rounds, ..pre })
        &&& post.rounds@.len() == pre.rounds@.len()
        &&& forall|j: int|
            0 <= j < pre.rounds@.len() && j != k - 2 ==> post.rounds@[j] == pre.rounds@[j]
        &&& post.rounds@[k - 2] == (Round {
            events: post.rounds@[k - 2].events,
            ..pre.rounds@[k - 2]
        })
        &&& post.rounds@[k - 2].events@.len() == pre.rounds@[k - 2].events@.len()
        &&& forall|j: int|
            0 <= j < pre.rounds@[k - 2].events@.len() ==> #[trigger] post.rounds@[k - 2].events@[j] == (
            RoundEvent {
                famous: verdict(
                    pre.events.store@,
                    e,
                    pre.rounds@[k - 1],
                    pre.rounds@[k - 2].peers.super_majority,
                    pre.rounds@[k - 2].events@[j],
                ),
                ..pre.rounds@[k - 2].events@[j]
            })
    }
}

/// Round ids and peer sets are those of `pre`, so `post` is well-formed as `pre` is.
pub proof fn lemma_same_frames_wf(pre: Seq<Round>, post: Seq<Round>)
    requires
        rounds_wf(pre),
        post.len() == pre.len(),
        forall|j: int| 0 <= j < pre.len() ==> post[j].id == pre[j].id && post[j].peers == pre[j].peers,
    ensures
        rounds_wf(post),
{
    assert forall|j: int| 0 <= j < post.len() implies (#[trigger] post[j]).id == post[0].id + j by {
        assert(pre[j].id == pre[0].id + j);
    }
    assert forall|j: int| 0 <= j < post.len() implies (#[trigger] post[j]).peers.wf() by {
        assert(pre[j].peers.wf());
    }
}

/// Round ids are those of `pre` and the peer sets keep their peers and
/// thresholds, so `post` is well-formed as `pre` is.
pub proof fn lemma_same_peers_wf(pre: Seq<Round>, post: Seq<Round>)
    requires
        rounds_wf(pre),
        post.len() == pre.len(),
        forall|j: int|
            0 <= j < pre.len() ==> post[j].id == pre[j].id && post[j].peers.list()
                == pre[j].peers.list() && post[j].peers.super_majority
                == pre[j].peers.super_majority,
    ensures
        rounds_wf(post),
{
    assert forall|j: int| 0 <= j < post.len() implies (#[trigger] post[j]).id == post[0].id + j by {
        assert(pre[j].id == pre[0].id + j);
    }
    assert forall|j: int| 0 <= j < post.len() implies (#[trigger] post[j]).peers.wf() by {
        assert(pre[j].peers.wf());
    }
}

impl Hashgraph {
    /// The place of the record of a voting witness: its round and its
    /// record in the round.
    pub fn find_voter(&self, e: &Event) -> (r: Option<(usize, usize)>)
        ensures
            r.is_some() == votes(self.rounds@, *e),
            r.is_some() ==> r.unwrap().0 as int == round_index(self.rounds@, e.round)
                && r.unwrap().1 as int == self.rounds@[r.unwrap().0 as int].record_index(e.hash)
                && 1 <= r.unwrap().0 < self.rounds@.len() && r.unwrap().1
                < self.rounds@[r.unwrap().0 as int].events@.len()
                && self.rounds@[r.unwrap().0 as int].events@[r.unwrap().1 as int].hash == e.hash,
    {
        let k = match self.find_round(e.round) {
            Some(k) => k,
            None => {
                return None;
            },
        };
        if k == 0 {
            return None;
        }
        match self.rounds[k].find(e.hash) {
            Some(i) => {
                if self.rounds[k].events[i].witness {
                    Some((k, i))
                } else {
                    None
                }
            },
            None => None,
        }
    }

    /// The votes of `e` on the witnesses of the round at place `k`.
    pub fn compute_votes(&self, e: &Event, k: usize) -> (votes: HashMap<EventHash, bool>)
        requires
            self.wf(),
            k < self.rounds@.len(),
        ensures
            votes@ == votes_on(self.events.store@, *e, self.rounds@[k as int].witnesses@),
    {
        let round = &self.rounds[k];
        let mut votes: HashMap<EventHash, bool> = HashMap::new();
        let mut t: usize = 0;
        proof {
            assert(round.witnesses@.take(0) =~= Seq::<EventHash>::empty());
        }
        while t < round.witnesses.len()
            invariant
                self.wf(),
                t <= round.witnesses@.len(),
                votes@ == votes_on(self.events.store@, *e, round.witnesses@.take(t as int)),
            decreases round.witnesses@.len() - t,
        {
            proof {
                assert(round.witnesses@.take(t + 1).drop_last() =~= round.witnesses@.take(t as int));
                assert(round.witnesses@.take(t + 1).last() == round.witnesses@[t as int]);
            }
            let w = round.witnesses[t];
            let sees = self.events.reaches(e, w);
            votes.insert(w, sees);
            t += 1;
        }
        proof {
            assert(round.witnesses@.take(round.witnesses@.len() as int) =~= round.witnesses@);
        }
        votes
    }

    /// Writes `votes` to the record at place `i` of the round at place `k`.
    pub fn set_votes(&mut self, k: usize, i: usize, votes: HashMap<EventHash, bool>)
        requires
            old(self).wf(),
            k < old(self).rounds@.len(),
            i < old(self).rounds@[k as int].events@.len(),
        ensures
            final(self).wf(),
            *final(self) == (Hashgraph { rounds: final(self).rounds, ..*old(self) }),
            final(self).rounds@.len() == old(self).rounds@.len(),
            forall|j: int|
                0 <= j < old(self).rounds@.len() && j != k ==> final(self).rounds@[j] == old(self).rounds@[j],
            final(self).rounds@[k as int] == (Round {
                events: final(self).rounds@[k as int].events,
                ..old(self).rounds@[k as int]
            }),
            final(self).rounds@[k as int].events@.len() == old(self).rounds@[k as int].events@.len(),
            forall|j: int|
                0 <= j < old(self).rounds@[k as int].events@.len() && j != i ==> final(self).rounds@[k as int].events@[j] == old(self).rounds@[k as int].events@[j],
            final(self).rounds@[k as int].events@[i as int] == (RoundEvent {
                votes,
                ..old(self).rounds@[k as int].events@[i as int]
            }),
    {
        self.rounds[k].events[i].votes = votes;
        proof {
            lemma_same_frames_wf(old(self).rounds@, self.rounds@);
        }
    }

    /// Writes the votes of the witness `e` on the witnesses of the round
    /// before its own to its record.
    pub fn cast_votes(&mut self, e: &Event)
        requires
            old(self).wf(),
        ensures
            final(self).wf(),
            voted(*old(self), *e, *final(self)),
    {
        let (k, i) = match self.find_voter(e) {
            Some(place) => place,
            None => {
                return ;
            },
        };
        let votes = self.compute_votes(e, k - 1);
        self.set_votes(k, i, votes);
    }

    /// For each witness of the round at place `k`, whether `e` strongly
    /// sees it by that round's peer set.
    pub fn strongly_seen_marks(&self, e: &Event, k: usize) -> (marks: Vec<bool>)
        requires
            self.wf(),
            k < self.rounds@.len(),
        ensures
            marks@.len() == self.rounds@[k as int].witnesses@.len(),
            forall|t: int|
                0 <= t < marks@.len() ==> marks@[t] == strongly_sees(
                    self.events.store@,
                    *e,
                    self.rounds@[k as int].witnesses@[t],
                    self.rounds@[k as int].peers.super_majority,
                ),
    {
        let round = &self.rounds[k];
        let mut marks: Vec<bool> = Vec::new();
        let mut t: usize = 0;
        while t < round.witnesses.len()
            invariant
                self.wf(),
                t <= round.witnesses@.len(),
                marks@.len() == t,
                forall|j: int|
                    0 <= j < t ==> marks@[j] == strongly_sees(
                        self.events.store@,
                        *e,
                        round.witnesses@[j],
                        round.peers.super_majority,
                    ),
            decreases round.witnesses@.len() - t,
        {
            let mark = self.events.sees_strongly(e, round.witnesses[t], round.peers.super_majority);
            marks.push(mark);
            t += 1;
        }
        marks
    }

    /// The verdicts that the witness `e` of the round at place `k` brings
    /// about on the records of the round two before.
    pub fn verdicts(&self, e: &Event, k: usize) -> (r: Vec<FamousType>)
        requires
            self.wf(),
            2 <= k < self.rounds@.len(),
        ensures
            r@.len() == self.rounds@[k - 2].events@.len(),
            forall|j: int|
                0 <= j < r@.len() ==> r@[j] == verdict(
                    self.events.store@,
                    *e,
                    self.rounds@[k - 1],
                    self.rounds@[k - 2].peers.super_majority,
                    self.rounds@[k - 2].events@[j],
                ),
    {
        let prev = &self.rounds[k - 1];
        let target = &self.rounds[k - 2];
        let threshold = target.peers.super_majority;
        let strong = self.strongly_seen_marks(e, k - 1);
        let mut r: Vec<FamousType> = Vec::new();
        let mut j: usize = 0;
        while j < target.events.len()
            invariant
                j <= target.events@.len(),
                r@.len() == j,
                strong@.len() == prev.witnesses@.len(),
                forall|t: int|
                    0 <= t < strong@.len() ==> strong@[t] == strongly_sees(
                        self.events.store@,
                        *e,
                        prev.witnesses@[t],
                        prev.peers.super_majority,
                    ),
                forall|i: int|
                    0 <= i < j ==> r@[i] == verdict(
                        self.events.store@,
                        *e,
                        *prev,
                        threshold,
                        target.events@[i],
                    ),
            decreases target.events@.len() - j,
        {
            let u = &target.events[j];
            let mut fame = u.famous;
            if u.witness && u.famous == FamousType::Undefined {
                let mut count: usize = 0;
                let mut t: usize = 0;
                while t < prev.witnesses.len()
                    invariant
                        t <= prev.witnesses@.len(),
                        count <= t,
                        strong@.len() == prev.witnesses@.len(),
                        forall|i: int|
                            0 <= i < strong@.len() ==> strong@[i] == strongly_sees(
                                self.events.store@,
                                *e,
                                prev.witnesses@[i],
                                prev.peers.super_majority,
                            ),
                        count == yes_count(self.events.store@, *e, *prev, u.hash, t as int),
                    decreases prev.witnesses@.len() - t,
                {
                    if strong[t] {
                        match prev.get(prev.witnesses[t]) {
                            Some(record) => {
                                if record.voted_yes(u.hash) {
                                    count += 1;
                                }
                            },
                            None => {},
                        }
                    }
                    t += 1;
                }
                fame = if count as u64 >= threshold {
                    FamousType::True
                } else {
                    FamousType::False
                };
            }
            r.push(fame);
            j += 1;
        }
        r
    }

    /// Writes `verdicts` to the records of the round at place `at`, one
    /// for each record.
    pub fn set_verdicts(&mut self, at: usize, verdicts: Vec<FamousType>)
        requires
            old(self).wf(),
            at < old(self).rounds@.len(),
            verdicts@.len() == old(self).rounds@[at as int].events@.len(),
        ensures
            final(self).wf(),
            *final(self) == (Hashgraph { rounds: final(self).rounds, ..*old(self) }),
            final(self).rounds@.len() == old(self).rounds@.len(),
            forall|i: int|
                0 <= i < old(self).rounds@.len() && i != at ==> final(self).rounds@[i] == old(self).rounds@[i],
            final(self).rounds@[at as int] == (Round {
                events: final(self).rounds@[at as int].events,
                ..old(self).rounds@[at as int]
            }),
            final(self).rounds@[at as int].events@.len() == verdicts@.len(),
            forall|i: int|
                0 <= i < verdicts@.len() ==> #[trigger] final(self).rounds@[at as int].events@[i]
                    == (RoundEvent {
                    famous: verdicts@[i],
                    ..old(self).rounds@[at as int].events@[i]
                }),
    {
        let mut j: usize = 0;
        while j < verdicts.len()
            invariant
                at < old(self).rounds@.len(),
                j <= verdicts@.len(),
                verdicts@.len() == old(self).rounds@[at as int].events@.len(),
                *self == (Hashgraph { rounds: self.rounds, ..*old(self) }),
                self.rounds@.len() == old(self).rounds@.len(),
                forall|i: int|
                    0 <= i < self.rounds@.len() && i != at ==> self.rounds@[i] == old(self).rounds@[i],
                self.rounds@[at as int] == (Round {
                    events: self.rounds@[at as int].events,
                    ..old(self).rounds@[at as int]
                }),
                self.rounds@[at as int].events@.len() == verdicts@.len(),
                forall|i: int|
                    0 <= i < j ==> #[trigger] self.rounds@[at as int].events@[i] == (RoundEvent {
                        famous: verdicts@[i],
                        ..old(self).rounds@[at as int].events@[i]
                    }),
                forall|i: int|
                    j <= i < verdicts@.len() ==> #[trigger] self.rounds@[at as int].events@[i]
                        == old(self).rounds@[at as int].events@[i],
            decreases verdicts@.len() - j,
        {
            self.rounds[at].events[j].famous = verdicts[j];
            j += 1;
        }
        proof {
            lemma_same_frames_wf(old(self).rounds@, self.rounds@);
        }
    }

    /// Gives the records of the round two before that of the witness `e`
    /// their verdicts.
    pub fn decide_fame(&mut self, e: &Event)
        requires
            old(self).wf(),
        ensures
            final(self).wf(),
            famed(*old(self), *e, *final(self)),
    {
        let k = match self.find_voter(e) {
            Some(place) => place.0,
            None => {
                return ;
            },
        };
        if k < 2 {
            return ;
        }
        let verdicts = self.verdicts(e, k);
        self.set_verdicts(k - 2, verdicts);
    }
}

} // verus!
