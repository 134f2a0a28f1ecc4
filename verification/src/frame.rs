//! Frames: the snapshot of the last rounds that a joining node starts from.

use vstd::prelude::*;

use crate::author::{flattened, merged};
use crate::event::{Event, EventCreator, EventView};
use crate::events::{diff_views, event_views, CreatorEvents, Frame, FrameRound};
use crate::hashgraph::{rounds_wf, Hashgraph};
use crate::index::{find_u64, first_index_of};
use crate::peers::Peers;
use crate::round::Round;

verus! {

/// The place of the first round that a frame holds: that of round 1 up to
/// round 5, beyond of the fourth round before the last; the first
/// materialized round where that one is not materialized.
pub open spec fn frame_start(rounds: Seq<Round>) -> int {
    let last = rounds.last().id;
    let bound = if last <= 5 {
        1
    } else {
        last - 4
    };
    if bound <= rounds[0].id {
        0
    } else {
        bound - rounds[0].id
    }
}

/// Whether a frame holds the stored event `e` for the round `round`: the
/// round has it on record, and its creator is a peer of the round.
pub open spec fn in_frame(round: Round, e: Event) -> bool {
    round.record_index(e.hash) >= 0 && round.peers.contains(e.creator)
}

/// The creators, each once and in order of first appearance, of those of
/// the first `n` stored events that the frame holds for `round`.
pub open spec fn frame_creators(s: Seq<Event>, round: Round, n: int) -> Seq<EventCreator>
    decreases n,
{
    if n <= 0 {
        Seq::empty()
    } else {
        let before = frame_creators(s, round, n - 1);
        if in_frame(round, s[n - 1]) && first_index_of(before, s[n - 1].creator) < 0 {
            before.push(s[n - 1].creator)
        } else {
            before
        }
    }
}

/// Those of the first `n` stored events, in order, that are by `creator`
/// and that the frame holds for `round`.
pub open spec fn frame_events(s: Seq<Event>, round: Round, creator: EventCreator, n: int) -> Seq<
    Event,
>
    decreases n,
{
    if n <= 0 {
        Seq::empty()
    } else {
        let before = frame_events(s, round, creator, n - 1);
        if in_frame(round, s[n - 1]) && s[n - 1].creator == creator {
            before.push(s[n - 1])
        } else {
            before
        }
    }
}

/// The events `v` with the first made a root: a frame names no parent
/// that lies before it.
pub open spec fn rooted(v: Seq<EventView>) -> Seq<EventView> {
    if v.len() == 0 {
        v
    } else {
        v.update(0, EventView { self_parent: 0, ..v[0] })
    }
}

/// What a frame holds for `round`: each creator with its events, made to
/// start with a root where `first` says that the round is the frame's first.
pub open spec fn frame_entries(s: Seq<Event>, round: Round, first: bool) -> Seq<
    (EventCreator, Seq<EventView>),
> {
    let creators = frame_creators(s, round, s.len() as int);
    Seq::new(
        creators.len(),
        |i: int|
            {
                let v = event_views(frame_events(s, round, creators[i], s.len() as int));
                (
                    creators[i],
                    if first {
                        rooted(v)
                    } else {
                        v
                    },
                )
            },
    )
}

/// `frame` is the last frame of `hg` for the peer `peer_id`: empty where
/// there are no rounds or the peer is no member by the last round;
/// else it holds the rounds from [`frame_start`] on, each with its peer
/// set and [`frame_entries`].
pub open spec fn is_last_frame(hg: Hashgraph, peer_id: u64, frame: Frame) -> bool {
    let rounds = hg.rounds@;
    if rounds.len() == 0 || !rounds.last().peers.contains(peer_id) {
        frame.events@.len() == 0
    } else {
        let start = frame_start(rounds);
        &&& frame.events@.len() == rounds.len() - start
        &&& forall|t: int|
            0 <= t < frame.events@.len() ==> {
                let fr = #[trigger] frame.events@[t];
                &&& fr.id == rounds[start + t].id
                &&& fr.peers@ == rounds[start + t].peers@
                &&& fr.peers.wf()
                &&& diff_views(fr.events@) == frame_entries(
                    hg.events.store@,
                    rounds[start + t],
                    t == 0,
                )
            }
    }
}

/// `post` is `pre` with the round `id` materialized with the peer set
/// `peers`, as far as it can follow on the rounds there are: as the first
/// round, or as the one after the last.
pub open spec fn round_ensured(pre: Hashgraph, id: u64, peers: Peers, post: Hashgraph) -> bool {
    if pre.rounds@.len() == 0 || id == pre.rounds@.last().id + 1 {
        let r = post.rounds@.last();
        &&& post == (Hashgraph { rounds: post.rounds, ..pre })
        &&& post.rounds@ == pre.rounds@.push(r)
        &&& r.id == id
        &&& r.peers == peers
        &&& r.events@.len() == 0
        &&& r.witnesses@.len() == 0
        &&& !r.decided
        &&& !r.purged
    } else {
        post == pre
    }
}

/// The peer set `peers` as the node `self_id` holds it.
pub open spec fn owned_by(peers: Peers, self_id: u64, mine: Peers) -> bool {
    mine@ == (crate::peers::PeersView { self_id, ..peers@ })
}

/// `post` is `pre` after the first `n` rounds of a frame were taken in by
/// the node `self_id`: each round is materialized with the frame's peer
/// set, as far as it follows on the rounds there are, and its events are
/// handed to the pipeline.
pub open spec fn frame_applied(
    pre: Hashgraph,
    frame: Seq<FrameRound>,
    self_id: u64,
    n: int,
    post: Hashgraph,
) -> bool
    decreases n,
{
    if n <= 0 {
        post == pre
    } else {
        exists|a: Hashgraph, b: Hashgraph, mine: Peers|
            #![trigger round_ensured(a, frame[n - 1].id, mine, b)]
            frame_applied(pre, frame, self_id, n - 1, a) && owned_by(
                frame[n - 1].peers,
                self_id,
                mine,
            ) && round_ensured(a, frame[n - 1].id, mine, b) && merged(
                b,
                flattened(frame[n - 1].events@, frame[n - 1].events@.len() as int),
                post,
            )
    }
}

impl Hashgraph {
    /// Copies of the stored events of `creator` that the frame holds for
    /// the round at place `k`.
    fn frame_events_of(&self, k: usize, creator: EventCreator) -> (r: Vec<Event>)
        requires
            k < self.rounds@.len(),
        ensures
            event_views(r@) == event_views(
                frame_events(
                    self.events.store@,
                    self.rounds@[k as int],
                    creator,
                    self.events.store@.len() as int,
                ),
            ),
    {
        let round = &self.rounds[k];
        let ghost s = self.events.store@;
        let mut r: Vec<Event> = Vec::new();
        let mut i: usize = 0;
        while i < self.events.store.len()
            invariant
                i <= s.len(),
                s == self.events.store@,
                event_views(r@) == event_views(frame_events(s, *round, creator, i as int)),
            decreases s.len() - i,
        {
            let e = &self.events.store[i];
            if e.creator == creator && round.find(e.hash).is_some() && round.peers.has(e.creator) {
                let ghost before = r@;
                r.push(e.clone());
                proof {
                    crate::events::lemma_event_views_push(before, r@.last());
                    crate::events::lemma_event_views_push(
                        frame_events(s, *round, creator, i as int),
                        s[i as int],
                    );
                    assert(r@ =~= before.push(r@.last()));
                }
            }
            i += 1;
        }
        r
    }

    /// The creators of the stored events that the frame holds for the
    /// round at place `k`.
    fn frame_creators_of(&self, k: usize) -> (r: Vec<EventCreator>)
        requires
            k < self.rounds@.len(),
        ensures
            r@ == frame_creators(
                self.events.store@,
                self.rounds@[k as int],
                self.events.store@.len() as int,
            ),
    {
        let round = &self.rounds[k];
        let ghost s = self.events.store@;
        let mut r: Vec<EventCreator> = Vec::new();
        let mut i: usize = 0;
        while i < self.events.store.len()
            invariant
                i <= s.len(),
                s == self.events.store@,
                r@ == frame_creators(s, *round, i as int),
            decreases s.len() - i,
        {
            let e = &self.events.store[i];
            if round.find(e.hash).is_some() && round.peers.has(e.creator) && find_u64(
                &r,
                e.creator,
            ).is_none() {
                r.push(e.creator);
            }
            i += 1;
        }
        r
    }

    /// What a frame holds for the round at place `k`.
    fn frame_round(&self, k: usize, first: bool) -> (fr: FrameRound)
        requires
            self.wf(),
            k < self.rounds@.len(),
        ensures
            fr.id == self.rounds@[k as int].id,
            fr.peers@ == self.rounds@[k as int].peers@,
            fr.peers.wf(),
            diff_views(fr.events@) == frame_entries(
                self.events.store@,
                self.rounds@[k as int],
                first,
            ),
    {
        let ghost s = self.events.store@;
        let ghost round = self.rounds@[k as int];
        let creators = self.frame_creators_of(k);
        let mut entries: Vec<CreatorEvents> = Vec::new();
        let mut i: usize = 0;
        while i < creators.len()
            invariant
                k < self.rounds@.len(),
                s == self.events.store@,
                round == self.rounds@[k as int],
                creators@ == frame_creators(s, round, s.len() as int),
                i <= creators@.len(),
                entries@.len() == i,
                forall|j: int|
                    0 <= j < i ==> (#[trigger] entries@[j]).creator == creators@[j] && event_views(
                        entries@[j].events@,
                    ) == ({
                        let v = event_views(frame_events(s, round, creators@[j], s.len() as int));
                        if first {
                            rooted(v)
                        } else {
                            v
                        }
                    }),
            decreases creators@.len() - i,
        {
            let creator = creators[i];
            let mut events = self.frame_events_of(k, creator);
            if first && events.len() > 0 {
                let ghost before = events@;
                events[0].self_parent = 0;
                proof {
                    assert(event_views(events@) =~= rooted(event_views(before)));
                }
            }
            entries.push(CreatorEvents { creator, events });
            i += 1;
        }
        proof {
            assert(diff_views(entries@) =~= frame_entries(s, round, first));
            assert(self.rounds@[k as int].peers.wf());
        }
        FrameRound { id: self.rounds[k].id, peers: self.rounds[k].peers.clone(), events: entries }
    }

    /// The snapshot of the last rounds for the peer `peer_id`, empty for
    /// one that is no member.
    pub fn get_last_frame(&self, peer_id: u64) -> (frame: Frame)
        requires
            self.wf(),
        ensures
            is_last_frame(*self, peer_id, frame),
    {
        let mut frame = Frame::new();
        let n = self.rounds.len();
        if n == 0 || !self.rounds[n - 1].peers.has(peer_id) {
            return frame;
        }
        let last = self.rounds[n - 1].id;
        let first = self.rounds[0].id;
        let bound: u64 = if last <= 5 {
            1
        } else {
            last - 4
        };
        proof {
            assert(self.rounds@[n - 1].id == self.rounds@[0].id + n - 1);
        }
        let start: usize = if bound <= first {
            0
        } else {
            (bound - first) as usize
        };
        let mut k: usize = start;
        while k < n
            invariant
                self.wf(),
                n == self.rounds@.len(),
                start == frame_start(self.rounds@),
                start <= k <= n,
                frame.events@.len() == k - start,
                forall|t: int|
                    0 <= t < frame.events@.len() ==> {
                        let fr = #[trigger] frame.events@[t];
                        &&& fr.id == self.rounds@[start + t].id
                        &&& fr.peers@ == self.rounds@[start + t].peers@
                        &&& fr.peers.wf()
                        &&& diff_views(fr.events@) == frame_entries(
                            self.events.store@,
                            self.rounds@[start + t],
                            t == 0,
                        )
                    },
            decreases n - k,
        {
            let fr = self.frame_round(k, k == start);
            frame.events.push(fr);
            k += 1;
        }
        frame
    }

    /// Materializes the round `id` with the peer set `peers`, as far as it
    /// can follow on the rounds there are.
    pub fn ensure_round(&mut self, id: u64, peers: Peers)
        requires
            old(self).wf(),
            peers.wf(),
        ensures
            final(self).wf(),
            round_ensured(*old(self), id, peers, *final(self)),
    {
        let n = self.rounds.len();
        if n > 0 {
            let last = self.rounds[n - 1].id;
            if last == u64::MAX || id != last + 1 {
                return ;
            }
        }
        let mut round = Round::new(id);
        round.peers = peers;
        let ghost before = self.rounds@;
        proof {
            if n > 0 {
                assert(before[n - 1].id == before[0].id + n - 1);
            }
        }
        self.rounds.push(round);
        proof {
            assert forall|j: int| 0 <= j < self.rounds@.len() implies (
            #[trigger] self.rounds@[j]).id == self.rounds@[0].id + j by {
                if j < n {
                    assert(before[j].id == before[0].id + j);
                }
            }
            assert forall|j: int| 0 <= j < self.rounds@.len() implies (
            #[trigger] self.rounds@[j]).peers.wf() by {
                if j < n {
                    assert(before[j].peers.wf());
                }
            }
        }
    }

    /// Takes in a frame as the node `self_id`: materializes its rounds and
    /// hands its events to the pipeline.
    pub fn apply_frame(&mut self, frame: &Frame, self_id: u64)
        requires
            old(self).wf(),
            forall|t: int| 0 <= t < frame.events@.len() ==> (#[trigger] frame.events@[t]).peers.wf(),
        ensures
            final(self).wf(),
            frame_applied(
                *old(self),
                frame.events@,
                self_id,
                frame.events@.len() as int,
                *final(self),
            ),
    {
        let ghost pre = *self;
        let mut t: usize = 0;
        while t < frame.events.len()
            invariant
                self.wf(),
                t <= frame.events@.len(),
                forall|i: int|
                    0 <= i < frame.events@.len() ==> (#[trigger] frame.events@[i]).peers.wf(),
                frame_applied(pre, frame.events@, self_id, t as int, *self),
            decreases frame.events@.len() - t,
        {
            let fr = &frame.events[t];
            let ghost a = *self;
            let mut peers = fr.peers.clone();
            proof {
                assert(frame.events@[t as int].peers.wf());
            }
            peers.self_id = self_id;
            self.ensure_round(fr.id, peers);
            let ghost b = *self;
            self.insert_all(&fr.events);
            proof {
                let n = t + 1;
                assert(frame_applied(pre, frame.events@, self_id, n - 1, a) && owned_by(
                    frame.events@[n - 1].peers,
                    self_id,
                    peers,
                ) && round_ensured(a, frame.events@[n - 1].id, peers, b) && merged(
                    b,
                    flattened(frame.events@[n - 1].events@, frame.events@[n - 1].events@.len() as int),
                    *self,
                ));
                assert(frame_applied(pre, frame.events@, self_id, n as int, *self));
            }
            t += 1;
        }
    }
}

} // verus!
