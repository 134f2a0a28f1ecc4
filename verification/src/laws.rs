//! What holds of the engine whatever it is fed.

use vstd::prelude::*;

use crate::consensus::{emitted, emitted_one, ordered, stamped};
use crate::event::{payload_views, Event, EventHash};
use crate::events::{
    acceptable, event_hashes, gapless, last_of, lemma_last_of, lemma_last_of_is, parent_index,
    rounds_monotone, self_parents_consistent,
};
use crate::fame::{famed, voted};
use crate::hashgraph::{
    count_seen, has_place, parent_round_id, placed, round_index, round_of, witness_of, Hashgraph,
};
use crate::index::{distinct, first_index_of, lemma_first_index_of};
use crate::internal_txs::{PeerTxType, PeerTxView};
use crate::membership::{member_after, membership_applied, round_with_members};
use crate::order::Decided;
use crate::peers::super_majority_of;
use crate::pipeline::{admits, fame_processed, inserted_event, received_decided, stored};
use crate::purge::{purged, to_purge};
use crate::received::received_marked;
use crate::round::{FamousType, Round, RoundEvent};

verus! {

/// The verdict on the record at place `j` of the round at place `k`, if
/// `pre` has one, stands in `post`, unless the round is purged there.
pub open spec fn record_kept(pre: Seq<Round>, post: Seq<Round>, k: int, j: int) -> bool {
    pre[k].events@[j].famous != FamousType::Undefined ==> k < post.len() && (post[k].purged || (j
        < post[k].events@.len() && post[k].events@[j].hash == pre[k].events@[j].hash
        && post[k].events@[j].famous == pre[k].events@[j].famous))
}

/// No round is lost, a purged round stays purged, and every verdict
/// stands as long as its round is not purged.
pub open spec fn fame_kept(pre: Seq<Round>, post: Seq<Round>) -> bool {
    &&& post.len() >= pre.len()
    &&& forall|k: int| 0 <= k < pre.len() && pre[k].purged ==> (#[trigger] post[k]).purged
    &&& forall|k: int, j: int|
        0 <= k < pre.len() && 0 <= j < pre[k].events@.len() ==> #[trigger] record_kept(
            pre,
            post,
            k,
            j,
        )
}

/// What was decided in `pre` is decided in `post`: the verdicts stand, and
/// the decided payloads of `pre` are the first of `post`, in their order.
pub open spec fn history_kept(pre: Hashgraph, post: Hashgraph) -> bool {
    &&& fame_kept(pre.rounds@, post.rounds@)
    &&& payload_views(pre.transactions@).is_prefix_of(payload_views(post.transactions@))
}

/// An engine keeps its own history.
pub proof fn lemma_history_refl(hg: Hashgraph)
    ensures
        history_kept(hg, hg),
{
    assert forall|k: int, j: int|
        0 <= k < hg.rounds@.len() && 0 <= j < hg.rounds@[k].events@.len() implies #[trigger] record_kept(
        hg.rounds@,
        hg.rounds@,
        k,
        j,
    ) by {}
}

/// What keeps the history step by step keeps it over both steps.
pub proof fn lemma_history_trans(a: Hashgraph, b: Hashgraph, c: Hashgraph)
    requires
        history_kept(a, b),
        history_kept(b, c),
    ensures
        history_kept(a, c),
{
    let (ra, rb, rc) = (a.rounds@, b.rounds@, c.rounds@);
    assert forall|k: int| 0 <= k < ra.len() && ra[k].purged implies (#[trigger] rc[k]).purged by {
        assert(rb[k].purged);
    }
    assert forall|k: int, j: int|
        0 <= k < ra.len() && 0 <= j < ra[k].events@.len() implies #[trigger] record_kept(
        ra,
        rc,
        k,
        j,
    ) by {
        assert(record_kept(ra, rb, k, j));
        if ra[k].events@[j].famous != FamousType::Undefined {
            if rb[k].purged {
                assert(rc[k].purged);
            } else {
                assert(record_kept(rb, rc, k, j));
            }
        }
    }
}

/// Rounds that keep their records' hashes and verdicts, and their purged
/// flag, keep the fame.
proof fn lemma_fame_kept_by_records(pre: Seq<Round>, post: Seq<Round>)
    requires
        post.len() >= pre.len(),
        forall|k: int|
            0 <= k < pre.len() ==> (#[trigger] post[k]).purged == pre[k].purged
                && post[k].events@.len() >= pre[k].events@.len(),
        forall|k: int, j: int|
            0 <= k < pre.len() && 0 <= j < pre[k].events@.len() ==> (
            #[trigger] post[k].events@[j]).hash == pre[k].events@[j].hash && (pre[k].events@[j].famous
                != FamousType::Undefined ==> post[k].events@[j].famous == pre[k].events@[j].famous),
    ensures
        fame_kept(pre, post),
{
    assert forall|k: int, j: int|
        0 <= k < pre.len() && 0 <= j < pre[k].events@.len() implies #[trigger] record_kept(
        pre,
        post,
        k,
        j,
    ) by {
        assert(post[k].events@[j].hash == pre[k].events@[j].hash);
    }
}

/// Recording an event keeps the history.
proof fn lemma_placed_keeps(pre: Hashgraph, e: Event, witness: bool, post: Hashgraph)
    requires
        has_place(pre.events.store@, pre.rounds@, e),
        placed(pre, e, witness, post),
    ensures
        history_kept(pre, post),
{
    let k = round_index(pre.rounds@, e.round);
    let (rp, rq) = (pre.rounds@, post.rounds@);
    assert forall|i: int|
        0 <= i < rp.len() implies (#[trigger] rq[i]).purged == rp[i].purged && rq[i].events@.len()
        >= rp[i].events@.len() by {}
    assert forall|i: int, j: int|
        0 <= i < rp.len() && 0 <= j < rp[i].events@.len() implies (#[trigger] rq[i].events@[j]).hash
        == rp[i].events@[j].hash && (rp[i].events@[j].famous != FamousType::Undefined
        ==> rq[i].events@[j].famous == rp[i].events@[j].famous) by {}
    lemma_fame_kept_by_records(rp, rq);
}

/// Storing an event keeps the history.
proof fn lemma_stored_keeps(pre: Hashgraph, e: Event, post: Hashgraph)
    requires
        stored(pre, e, post),
    ensures
        history_kept(pre, post),
{
    lemma_history_refl(pre);
}

/// Casting votes keeps the history.
proof fn lemma_voted_keeps(pre: Hashgraph, e: Event, post: Hashgraph)
    requires
        voted(pre, e, post),
    ensures
        history_kept(pre, post),
{
    if post == pre {
        lemma_history_refl(pre);
    } else {
        let (rp, rq) = (pre.rounds@, post.rounds@);
        let k = round_index(rp, e.round);
        let i = rp[k].record_index(e.hash);
        assert forall|a: int|
            0 <= a < rp.len() implies (#[trigger] rq[a]).purged == rp[a].purged
            && rq[a].events@.len() >= rp[a].events@.len() by {}
        assert forall|a: int, j: int|
            0 <= a < rp.len() && 0 <= j < rp[a].events@.len() implies (
        #[trigger] rq[a].events@[j]).hash == rp[a].events@[j].hash && (rp[a].events@[j].famous
            != FamousType::Undefined ==> rq[a].events@[j].famous == rp[a].events@[j].famous) by {
            if a == k && j != i {
                assert(rq[k].events@[j] == rp[k].events@[j]);
            }
        }
        lemma_fame_kept_by_records(rp, rq);
    }
}

/// New verdicts leave the verdicts that were given.
proof fn lemma_famed_keeps(pre: Hashgraph, e: Event, post: Hashgraph)
    requires
        famed(pre, e, post),
    ensures
        history_kept(pre, post),
{
    if post == pre {
        lemma_history_refl(pre);
    } else {
        let (rp, rq) = (pre.rounds@, post.rounds@);
        let k = round_index(rp, e.round);
        assert forall|a: int|
            0 <= a < rp.len() implies (#[trigger] rq[a]).purged == rp[a].purged
            && rq[a].events@.len() >= rp[a].events@.len() by {}
        assert forall|a: int, j: int|
            0 <= a < rp.len() && 0 <= j < rp[a].events@.len() implies (
        #[trigger] rq[a].events@[j]).hash == rp[a].events@[j].hash && (rp[a].events@[j].famous
            != FamousType::Undefined ==> rq[a].events@[j].famous == rp[a].events@[j].famous) by {
            if a == k - 2 {
                let t = k - 2;
                assert(rq[t].events@[j].hash == rp[t].events@[j].hash);
            }
        }
        lemma_fame_kept_by_records(rp, rq);
    }
}

/// Marking events as received keeps the history.
proof fn lemma_received_keeps(pre: Hashgraph, decided: Seq<EventHash>, post: Hashgraph)
    requires
        received_marked(pre, decided, post),
    ensures
        history_kept(pre, post),
{
    let (rp, rq) = (pre.rounds@, post.rounds@);
    assert forall|a: int|
        0 <= a < rp.len() implies (#[trigger] rq[a]).purged == rp[a].purged && rq[a].events@.len()
        >= rp[a].events@.len() by {}
    assert forall|a: int, j: int|
        0 <= a < rp.len() && 0 <= j < rp[a].events@.len() implies (#[trigger] rq[a].events@[j]).hash
        == rp[a].events@[j].hash && (rp[a].events@[j].famous != FamousType::Undefined
        ==> rq[a].events@[j].famous == rp[a].events@[j].famous) by {}
    lemma_fame_kept_by_records(rp, rq);
}

/// Stamping events keeps the history.
proof fn lemma_stamped_keeps(pre: Hashgraph, decided: Seq<EventHash>, post: Hashgraph)
    requires
        stamped(pre, decided, post),
    ensures
        history_kept(pre, post),
{
    let (rp, rq) = (pre.rounds@, post.rounds@);
    assert forall|a: int|
        0 <= a < rp.len() implies (#[trigger] rq[a]).purged == rp[a].purged && rq[a].events@.len()
        >= rp[a].events@.len() by {}
    assert forall|a: int, j: int|
        0 <= a < rp.len() && 0 <= j < rp[a].events@.len() implies (#[trigger] rq[a].events@[j]).hash
        == rp[a].events@[j].hash && (rp[a].events@[j].famous != FamousType::Undefined
        ==> rq[a].events@[j].famous == rp[a].events@[j].famous) by {}
    lemma_fame_kept_by_records(rp, rq);
}

/// A change of membership keeps every record.
proof fn lemma_membership_keeps(
    pre: Seq<Round>,
    txs: Seq<PeerTxView>,
    received: u64,
    post: Seq<Round>,
)
    requires
        membership_applied(pre, txs, received, post),
    ensures
        fame_kept(pre, post),
{
    if post == pre {
        assert forall|k: int, j: int|
            0 <= k < pre.len() && 0 <= j < pre[k].events@.len() implies #[trigger] record_kept(
            pre,
            post,
            k,
            j,
        ) by {}
    } else {
        assert forall|a: int|
            0 <= a < pre.len() implies (#[trigger] post[a]).purged == pre[a].purged
            && post[a].events@.len() >= pre[a].events@.len() && post[a].events
            == pre[a].events by {
            assert(round_with_members(pre[a], false, pre[0].id + a, txs, received + 3, post[a]));
        }
        assert forall|a: int, j: int|
            0 <= a < pre.len() && 0 <= j < pre[a].events@.len() implies (
        #[trigger] post[a].events@[j]).hash == pre[a].events@[j].hash && (pre[a].events@[j].famous
            != FamousType::Undefined ==> post[a].events@[j].famous == pre[a].events@[j].famous) by {
            assert(post[a].events == pre[a].events);
        }
        lemma_fame_kept_by_records(pre, post);
    }
}

/// Emitting an event adds to the end of the output, and keeps the history.
proof fn lemma_emitted_one_keeps(pre: Hashgraph, d: Decided, post: Hashgraph)
    requires
        emitted_one(pre, d, post),
    ensures
        history_kept(pre, post),
{
    let xi = first_index_of(event_hashes(pre.events.store@), d.hash);
    if xi < 0 {
        lemma_history_refl(pre);
    } else {
        let e = pre.events.store@[xi];
        lemma_membership_keeps(
            pre.rounds@,
            crate::internal_txs::peer_tx_views(e.internal_transactions@),
            d.received,
            post.rounds@,
        );
    }
}

/// Emitting events one after the other keeps the history.
proof fn lemma_emitted_keeps(pre: Hashgraph, order: Seq<Decided>, post: Hashgraph)
    requires
        emitted(pre, order, post),
    ensures
        history_kept(pre, post),
    decreases order.len(),
{
    if order.len() == 0 {
        lemma_history_refl(pre);
    } else {
        let mid = choose|mid: Hashgraph|
            emitted(pre, order.drop_last(), mid) && #[trigger] emitted_one(mid, order.last(), post);
        lemma_emitted_keeps(pre, order.drop_last(), mid);
        lemma_emitted_one_keeps(mid, order.last(), post);
        lemma_history_trans(pre, mid, post);
    }
}

/// A purge keeps the history of what it does not purge.
proof fn lemma_purged_keeps(pre: Hashgraph, max_round: u64, post: Hashgraph)
    requires
        purged(pre, max_round, post),
    ensures
        history_kept(pre, post),
{
    if max_round <= 5 {
        lemma_history_refl(pre);
    } else {
        let (rp, rq) = (pre.rounds@, post.rounds@);
        let limit = (max_round - 5) as u64;
        assert forall|k: int| 0 <= k < rp.len() && rp[k].purged implies (#[trigger] rq[k]).purged by {
            if to_purge(rp[k], limit) {
                assert(crate::round::purged_round(rp[k], rq[k]));
            }
        }
        assert forall|k: int, j: int|
            0 <= k < rp.len() && 0 <= j < rp[k].events@.len() implies #[trigger] record_kept(
            rp,
            rq,
            k,
            j,
        ) by {
            if to_purge(rp[k], limit) {
                assert(rq[k].purged);
            } else {
                assert(rq[k] == rp[k]);
            }
        }
    }
}

/// Ordering decided events keeps the history.
proof fn lemma_ordered_keeps(pre: Hashgraph, decided: Seq<EventHash>, post: Hashgraph)
    requires
        ordered(pre, decided, post),
    ensures
        history_kept(pre, post),
{
    let keys = crate::consensus::keys_of(pre, decided);
    let (a, b) = choose|a: Hashgraph, b: Hashgraph|
        #[trigger] stamped(pre, decided, a) && #[trigger] emitted(
            a,
            crate::order::final_order(keys),
            b,
        ) && purged(b, crate::consensus::max_round_of(pre.events.store@, keys), post);
    lemma_stamped_keeps(pre, decided, a);
    lemma_emitted_keeps(a, crate::order::final_order(keys), b);
    lemma_purged_keeps(b, crate::consensus::max_round_of(pre.events.store@, keys), post);
    lemma_history_trans(pre, a, b);
    lemma_history_trans(pre, b, post);
}

/// Deciding on the undecided events keeps the history.
proof fn lemma_received_decided_keeps(pre: Hashgraph, post: Hashgraph)
    requires
        received_decided(pre, post),
    ensures
        history_kept(pre, post),
{
    let (decided, mid) = choose|decided: Seq<EventHash>, mid: Hashgraph|
        #[trigger] received_marked(pre, decided, mid) && if decided.len() > 0 {
            ordered(mid, decided, post)
        } else {
            post == mid
        };
    lemma_received_keeps(pre, decided, mid);
    if decided.len() > 0 {
        lemma_ordered_keeps(mid, decided, post);
        lemma_history_trans(pre, mid, post);
    }
}

/// An event that has its say keeps the history.
proof fn lemma_fame_processed_keeps(pre: Hashgraph, e: Event, post: Hashgraph)
    requires
        fame_processed(pre, e, post),
    ensures
        history_kept(pre, post),
{
    if post == pre {
        lemma_history_refl(pre);
    } else {
        let (a, b) = choose|a: Hashgraph, b: Hashgraph|
            #[trigger] voted(pre, e, a) && #[trigger] famed(a, e, b) && received_decided(b, post);
        lemma_voted_keeps(pre, e, a);
        lemma_famed_keeps(a, e, b);
        lemma_received_decided_keeps(b, post);
        lemma_history_trans(pre, a, b);
        lemma_history_trans(pre, b, post);
    }
}

/// Fame and order are stable: whatever event the engine takes, every
/// verdict given before stands afterwards (as long as its round is not
/// purged), and the payloads decided before keep their places at the head
/// of the decided payloads.
pub proof fn law_insert_keeps_history(pre: Hashgraph, e: Event, post: Hashgraph)
    requires
        admits(pre, e),
        inserted_event(pre, e, post),
    ensures
        history_kept(pre, post),
{
    let e1 = crate::pipeline::assigned(pre, e);
    let w = witness_of(pre.events.store@, pre.rounds@, e);
    let (a, b) = choose|a: Hashgraph, b: Hashgraph|
        #[trigger] placed(pre, e1, w, a) && #[trigger] stored(a, e1, b) && fame_processed(
            b,
            e1,
            post,
        );
    lemma_placed_keeps(pre, e1, w, a);
    lemma_stored_keeps(a, e1, b);
    lemma_fame_processed_keeps(b, e1, post);
    lemma_history_trans(pre, a, b);
    lemma_history_trans(pre, b, post);
}

/// Ids have no gaps: of two events of one creator with none of its
/// events between them, the later has the id after that of the earlier,
/// and names it as self-parent.
pub proof fn law_ids_follow(hg: Hashgraph, i: int, j: int)
    requires
        hg.wf(),
        0 <= i < j < hg.events.store@.len(),
        hg.events.store@[i].creator == hg.events.store@[j].creator,
        forall|k: int| i < k < j ==> hg.events.store@[k].creator != hg.events.store@[j].creator,
    ensures
        hg.events.store@[j].id == hg.events.store@[i].id + 1,
        hg.events.store@[j].self_parent == hg.events.store@[i].hash,
{
    let s = hg.events.store@;
    assert(s.take(j)[i] == s[i]);
    assert forall|k: int| i < k < s.take(j).len() implies s.take(j)[k].creator != s[j].creator by {
        assert(s.take(j)[k] == s[k]);
    }
    lemma_last_of_is(s.take(j), s[j].creator, i);
}

/// The self-parent of a stored event, where the store holds it, is by
/// the same creator and has the id before.
pub proof fn law_self_parent(hg: Hashgraph, i: int, j: int)
    requires
        hg.wf(),
        0 <= j < i < hg.events.store@.len(),
        hg.events.store@[i].self_parent != 0,
        hg.events.store@[j].hash == hg.events.store@[i].self_parent,
    ensures
        hg.events.store@[j].creator == hg.events.store@[i].creator,
        hg.events.store@[j].id + 1 == hg.events.store@[i].id,
{
    let s = hg.events.store@;
    let hs = event_hashes(s);
    let sp = s[i].self_parent;
    lemma_first_index_of(hs.take(i), sp);
    assert(hs.take(i)[j] == hs[j]);
    assert(hs[j] == sp);
    let q = first_index_of(hs.take(i), sp);
    assert(hs.take(i)[q] == hs[q]);
    assert(q == j);
    assert(parent_index(s, i, s[i].self_parent) == j);
}

/// Rounds do not fall along self-parent links: a stored event lies in no
/// earlier round than its stored self-parent.
pub proof fn law_round_monotone(hg: Hashgraph, i: int, j: int)
    requires
        hg.wf(),
        0 <= j < i < hg.events.store@.len(),
        hg.events.store@[i].self_parent != 0,
        hg.events.store@[j].hash == hg.events.store@[i].self_parent,
    ensures
        hg.events.store@[j].round <= hg.events.store@[i].round,
{
    let s = hg.events.store@;
    let hs = event_hashes(s);
    let sp = s[i].self_parent;
    lemma_first_index_of(hs.take(i), sp);
    assert(hs.take(i)[j] == hs[j]);
    assert(hs[j] == sp);
    let q = first_index_of(hs.take(i), sp);
    assert(hs.take(i)[q] == hs[q]);
    assert(q == j);
    assert(parent_index(s, i, s[i].self_parent) == j);
}

/// The round that the engine assigns an event is that of its stored
/// self-parent, or the one after it.
pub proof fn law_round_assigned(hg: Hashgraph, e: Event)
    requires
        hg.rounds@.len() > 0,
        acceptable(hg.events.store@, e),
        e.self_parent != 0,
    ensures
        ({
            let s = hg.events.store@;
            let p = first_index_of(event_hashes(s), e.self_parent);
            let r = round_of(s, hg.rounds@, e);
            p >= 0 && s[p].round <= r <= s[p].round + 1
        }),
{
    let s = hg.events.store@;
    let hs = event_hashes(s);
    lemma_last_of(s, e.creator);
    assert(hs.take(s.len() as int) =~= hs);
    lemma_first_index_of(hs, e.hash);
}

/// Every root is a witness, and an event that is a witness without being
/// a root strongly sees a super-majority of the witnesses of the round it
/// starts from: as many as the round's peer set asks for, which is more
/// than two thirds of its peers.
pub proof fn law_witness(hg: Hashgraph, e: Event)
    requires
        hg.wf(),
    ensures
        e.self_parent == 0 ==> witness_of(hg.events.store@, hg.rounds@, e),
        e.self_parent != 0 && witness_of(hg.events.store@, hg.rounds@, e) ==> {
            let k = round_index(
                hg.rounds@,
                parent_round_id(hg.events.store@, hg.rounds@, e),
            );
            &&& k >= 0
            &&& count_seen(
                hg.events.store@,
                e,
                hg.rounds@[k].witnesses@,
                hg.rounds@[k].peers.super_majority,
            ) >= super_majority_of(hg.rounds@[k].peers.list().len())
        },
{
    if e.self_parent != 0 && witness_of(hg.events.store@, hg.rounds@, e) {
        let k = round_index(hg.rounds@, parent_round_id(hg.events.store@, hg.rounds@, e));
        assert(hg.rounds@[k].peers.wf());
    }
}

/// An event whose hash the store holds is not taken.
pub proof fn law_known_event_rejected(hg: Hashgraph, e: Event)
    requires
        first_index_of(event_hashes(hg.events.store@), e.hash) >= 0,
    ensures
        !admits(hg, e),
{
}

/// An event that was stored is not taken a second time: with it at the
/// end of the store, the engine does not admit it.
pub proof fn law_insert_twice(pre: Hashgraph, e: Event, post: Hashgraph)
    requires
        stored(pre, e, post),
    ensures
        !admits(post, e),
{
    let s = post.events.store@;
    let hs = event_hashes(s);
    let n = pre.events.store@.len() as int;
    assert(hs[n] == e.hash);
    lemma_first_index_of(hs, e.hash);
}

/// A purge changes nothing of what was decided: the decided payloads and
/// membership transactions stay, and every round that is not purged stays
/// as it was, with the received rounds and consensus timestamps of its events.
pub proof fn law_purge_keeps_order(pre: Hashgraph, max_round: u64, post: Hashgraph)
    requires
        purged(pre, max_round, post),
    ensures
        post.transactions == pre.transactions,
        post.internal_transactions == pre.internal_transactions,
        post.rounds@.len() == pre.rounds@.len(),
        forall|k: int|
            0 <= k < pre.rounds@.len() && !(max_round > 5 && to_purge(
                pre.rounds@[k],
                (max_round - 5) as u64,
            )) ==> #[trigger] post.rounds@[k] == pre.rounds@[k],
{
}

/// A purge clears every round up to the fifth before `max_round`: such a
/// round has no events and no witnesses afterwards and is marked purged,
/// whatever it held and however it was marked; its id and its peer set
/// stay. And the store holds no event that such a round had on record.
pub proof fn law_purge_clears(pre: Hashgraph, max_round: u64, post: Hashgraph, k: int)
    requires
        purged(pre, max_round, post),
        max_round > 5,
        0 <= k < pre.rounds@.len(),
        pre.rounds@[k].id <= max_round - 5,
    ensures
        post.rounds@[k].events@.len() == 0,
        post.rounds@[k].witnesses@.len() == 0,
        post.rounds@[k].purged,
        post.rounds@[k].id == pre.rounds@[k].id,
        post.rounds@[k].peers == pre.rounds@[k].peers,
        forall|j: int|
            0 <= j < pre.rounds@[k].events@.len() ==> first_index_of(
                event_hashes(post.events.store@),
                (#[trigger] pre.rounds@[k].events@[j]).hash,
            ) < 0,
{
    let limit = (max_round - 5) as u64;
    let rounds = pre.rounds@;
    let n = rounds.len() as int;
    let hashes = crate::purge::purge_list(rounds, limit, n);
    assert(crate::round::purged_round(rounds[k], post.rounds@[k]));
    assert forall|j: int| 0 <= j < rounds[k].events@.len() implies first_index_of(
        event_hashes(post.events.store@),
        (#[trigger] rounds[k].events@[j]).hash,
    ) < 0 by {
        let h = rounds[k].events@[j].hash;
        crate::purge::lemma_purge_list_holds(rounds, limit, n, k, j);
        crate::events::lemma_survivors_unlisted(pre.events.store@, hashes, h);
    }
}

/// A join takes effect three rounds after the round that received it, and
/// not before: where the last membership transaction that names the peer
/// `id` is a join, every round from the third after `received` on has the
/// peer as a member, and every earlier round has the members that it had.
pub proof fn law_join_after_three_rounds(
    pre: Seq<Round>,
    txs: Seq<PeerTxView>,
    received: u64,
    post: Seq<Round>,
    id: u64,
)
    requires
        pre.len() > 0,
        txs.len() > 0,
        membership_applied(pre, txs, received, post),
        member_after(txs, id, false),
        member_after(txs, id, true),
    ensures
        post.len() >= pre.len(),
        forall|k: int|
            0 <= k < post.len() && pre[0].id + k >= received + 3 ==> (
            #[trigger] post[k]).peers.contains(id),
        forall|k: int|
            0 <= k < pre.len() && pre[0].id + k < received + 3 ==> (#[trigger] post[k]).peers
                == pre[k].peers,
{
    assert forall|k: int| 0 <= k < post.len() && pre[0].id + k >= received + 3 implies (
    #[trigger] post[k]).peers.contains(id) by {
        let base = if k < pre.len() {
            pre[k]
        } else {
            pre.last()
        };
        assert(round_with_members(
            base,
            k >= pre.len(),
            pre[0].id + k,
            txs,
            received + 3,
            post[k],
        ));
        lemma_member_either(txs, id, base.peers.contains(id));
    }
    assert forall|k: int| 0 <= k < pre.len() && pre[0].id + k < received + 3 implies (
    #[trigger] post[k]).peers == pre[k].peers by {
        assert(round_with_members(pre[k], false, pre[0].id + k, txs, received + 3, post[k]));
    }
}

proof fn lemma_member_either(txs: Seq<PeerTxView>, id: u64, was: bool)
    ensures
        member_after(txs, id, false) && member_after(txs, id, true) ==> member_after(txs, id, was),
    decreases txs.len(),
{
    if txs.len() > 0 && txs.last().peer.id != id {
        lemma_member_either(txs.drop_last(), id, was);
    }
}

/// With one peer the peer alone is a super-majority; with two, both are
/// needed; with three, all three; with four, three.
pub proof fn law_small_super_majorities()
    ensures
        super_majority_of(1) == 1,
        super_majority_of(2) == 2,
        super_majority_of(3) == 3,
        super_majority_of(4) == 3,
{
}

/// Whether one of the transactions `txs` names the peer `p`.
pub open spec fn names(txs: Seq<PeerTxView>, p: u64) -> bool {
    exists|j: int| 0 <= j < txs.len() && (#[trigger] txs[j]).peer.id == p
}

/// The round id that stands for "never": beyond every round.
pub open spec fn never() -> int {
    u64::MAX + 1
}

/// The rounds follow each other, their peer sets are well-formed, and the
/// peer `p` is a member of exactly the rounds from round `from` on
/// (of none where `from` is [`never`]); where it is a member of some
/// round to come, the last round is such a round.
pub open spec fn member_from(rounds: Seq<Round>, p: u64, from: int) -> bool {
    &&& rounds.len() > 0
    &&& forall|k: int| 0 <= k < rounds.len() ==> (#[trigger] rounds[k]).id == rounds[0].id + k
    &&& forall|k: int| 0 <= k < rounds.len() ==> (#[trigger] rounds[k]).peers.wf()
    &&& forall|k: int|
        0 <= k < rounds.len() ==> (#[trigger] rounds[k]).peers.contains(p) == (rounds[k].id
            >= from)
    &&& from <= u64::MAX ==> rounds.last().id >= from
}

/// The membership transactions that the decided event `d` carries, as the
/// store `s` has them; none for an event that the store does not hold.
pub open spec fn event_txs(s: Seq<Event>, d: Decided) -> Seq<PeerTxView> {
    let xi = first_index_of(event_hashes(s), d.hash);
    if xi >= 0 {
        crate::internal_txs::peer_tx_views(s[xi].internal_transactions@)
    } else {
        Seq::empty()
    }
}

proof fn lemma_member_unnamed(txs: Seq<PeerTxView>, p: u64, was: bool)
    requires
        !names(txs, p),
    ensures
        member_after(txs, p, was) == was,
    decreases txs.len(),
{
    if txs.len() > 0 {
        assert(txs[txs.len() - 1].peer.id != p);
        assert forall|j: int| 0 <= j < txs.drop_last().len() implies (
        #[trigger] txs.drop_last()[j]).peer.id != p by {
            assert(txs[j].peer.id != p);
        }
        lemma_member_unnamed(txs.drop_last(), p, was);
    }
}

/// One change of membership: transactions that do not name the peer `p`
/// leave its membership as it is; transactions whose last word on `p` is
/// a join, applied while `p` is no member anywhere, make it a member from
/// the third round after the receiving round on.
proof fn lemma_membership_step(
    pre: Seq<Round>,
    txs: Seq<PeerTxView>,
    received: u64,
    post: Seq<Round>,
    p: u64,
    from: int,
)
    requires
        membership_applied(pre, txs, received, post),
        member_from(pre, p, from),
        !names(txs, p) || (member_after(txs, p, false) && from == never() && received + 3
            <= u64::MAX),
    ensures
        member_from(
            post,
            p,
            if names(txs, p) {
                received + 3
            } else {
                from
            },
        ),
{
    let target = received + 3;
    if !names(txs, p) && member_after(txs, p, false) {
        lemma_member_unnamed(txs, p, false);
    }
    if txs.len() == 0 {
        assert(!names(txs, p));
    } else {
        let to = if names(txs, p) {
            target
        } else {
            from
        };
        assert(pre.last().id == pre[0].id + pre.len() - 1);
        assert forall|k: int| 0 <= k < post.len() implies (#[trigger] post[k]).id == post[0].id + k
            && post[k].peers.wf() && post[k].peers.contains(p) == (post[k].id >= to) by {
            let base = if k < pre.len() {
                pre[k]
            } else {
                pre.last()
            };
            assert(round_with_members(base, k >= pre.len(), pre[0].id + k, txs, target, post[k]));
            assert(round_with_members(pre[0], false, pre[0].id + 0, txs, target, post[0]));
            assert(base.peers.contains(p) == (base.id >= from));
            if names(txs, p) {
                lemma_member_either(txs, p, base.peers.contains(p));
            } else {
                lemma_member_unnamed(txs, p, base.peers.contains(p));
            }
        }
        if to <= u64::MAX {
            let n = post.len() - 1;
            assert(post[n].id == post[0].id + n);
            assert(round_with_members(pre[0], false, pre[0].id + 0, txs, target, post[0]));
        }
    }
}

/// Emitting decided events of which one, the event at place `i`, has a
/// join as its last word on the peer `p`, and no other names `p`, while
/// `p` is no member anywhere: `p` is a member from the third round after
/// the round that received that event, and of no earlier round.
proof fn lemma_emitted_join(pre: Hashgraph, order: Seq<Decided>, post: Hashgraph, i: int, p: u64)
    requires
        emitted(pre, order, post),
        member_from(pre.rounds@, p, never()),
        0 <= i,
        forall|j: int|
            0 <= j < order.len() && j != i ==> !names(
                event_txs(pre.events.store@, #[trigger] order[j]),
                p,
            ),
        i < order.len() ==> member_after(event_txs(pre.events.store@, order[i]), p, false)
            && order[i].received + 3 <= u64::MAX,
    ensures
        post.events == pre.events,
        member_from(
            post.rounds@,
            p,
            if i < order.len() {
                order[i].received + 3
            } else {
                never()
            },
        ),
    decreases order.len(),
{
    if order.len() > 0 {
        let front = order.drop_last();
        let last = order.last();
        let n = order.len() - 1;
        let mid = choose|mid: Hashgraph|
            emitted(pre, front, mid) && #[trigger] emitted_one(mid, last, post);
        assert forall|j: int| 0 <= j < front.len() && j != i implies !names(
            event_txs(pre.events.store@, #[trigger] front[j]),
            p,
        ) by {
            assert(front[j] == order[j]);
        }
        if i < front.len() {
            assert(front[i] == order[i]);
        }
        lemma_emitted_join(pre, front, mid, i, p);
        let s = pre.events.store@;
        let txs = event_txs(s, last);
        let xi = first_index_of(event_hashes(s), last.hash);
        let from = if i < front.len() {
            order[i].received + 3
        } else {
            never()
        };
        if i == n {
            lemma_member_either(txs, p, false);
            if !names(txs, p) {
                lemma_member_unnamed(txs, p, false);
            }
        } else {
            assert(!names(event_txs(s, order[n]), p));
        }
        if xi >= 0 {
            lemma_membership_step(mid.rounds@, txs, last.received, post.rounds@, p, from);
        }
    }
}

/// A join takes effect three rounds after the round that received it,
/// whatever else is ordered with it. Where the events `decided` are
/// ordered, one of them — the event at place `i` of their final order —
/// has a join as its last word on the peer `p`, no other of them names
/// `p`, and `p` was a member of no round: afterwards the rounds up to
/// the third after the round that received that event exist, `p` is a
/// member of exactly the rounds from that third round on, and every
/// peer set is well-formed, so that its threshold is the super-majority
/// of its size.
pub proof fn law_join_in_consensus_order(
    pre: Hashgraph,
    decided: Seq<EventHash>,
    post: Hashgraph,
    i: int,
    p: u64,
)
    requires
        pre.wf(),
        pre.rounds@.len() > 0,
        forall|k: int| 0 <= k < pre.rounds@.len() ==> !(#[trigger] pre.rounds@[k]).peers.contains(p),
        ordered(pre, decided, post),
        ({
            let order = crate::order::final_order(crate::consensus::keys_of(pre, decided));
            let s = pre.events.store@;
            &&& 0 <= i < order.len()
            &&& member_after(event_txs(s, order[i]), p, false)
            &&& order[i].received + 3 <= u64::MAX
            &&& forall|j: int|
                0 <= j < order.len() && j != i ==> !names(event_txs(s, #[trigger] order[j]), p)
        }),
    ensures
        ({
            let order = crate::order::final_order(crate::consensus::keys_of(pre, decided));
            let third = order[i].received + 3;
            &&& post.rounds@.len() >= pre.rounds@.len()
            &&& post.rounds@.last().id >= third
            &&& forall|k: int|
                0 <= k < post.rounds@.len() ==> {
                    let round = #[trigger] post.rounds@[k];
                    &&& round.id == pre.rounds@[0].id + k
                    &&& round.peers.contains(p) == (round.id >= third)
                    &&& round.peers.super_majority == super_majority_of(round.peers.list().len())
                }
        }),
{
    let keys = crate::consensus::keys_of(pre, decided);
    let order = crate::order::final_order(keys);
    let (a, b) = choose|a: Hashgraph, b: Hashgraph|
        #[trigger] stamped(pre, decided, a) && #[trigger] emitted(a, order, b) && purged(
            b,
            crate::consensus::max_round_of(pre.events.store@, keys),
            post,
        );
    let third = order[i].received + 3;
    // stamping leaves ids and peer sets
    assert forall|k: int| 0 <= k < a.rounds@.len() implies (#[trigger] a.rounds@[k]).id
        == pre.rounds@[k].id && a.rounds@[k].peers == pre.rounds@[k].peers by {}
    assert(member_from(a.rounds@, p, never())) by {
        assert forall|k: int| 0 <= k < a.rounds@.len() implies (#[trigger] a.rounds@[k]).id
            == a.rounds@[0].id + k && a.rounds@[k].peers.wf() && !a.rounds@[k].peers.contains(
            p,
        ) by {
            assert(pre.rounds@[k].id == pre.rounds@[0].id + k);
            assert(pre.rounds@[k].peers.wf());
            assert(!pre.rounds@[k].peers.contains(p));
            assert(a.rounds@[0].id == pre.rounds@[0].id);
        }
    }
    lemma_emitted_join(a, order, b, i, p);
    lemma_history_emitted(a, order, b);
    // the purge leaves ids and peer sets
    let max = crate::consensus::max_round_of(pre.events.store@, keys);
    assert forall|k: int| 0 <= k < post.rounds@.len() implies (#[trigger] post.rounds@[k]).id
        == b.rounds@[k].id && post.rounds@[k].peers == b.rounds@[k].peers by {
        if max > 5 && to_purge(b.rounds@[k], (max - 5) as u64) {
            assert(crate::round::purged_round(b.rounds@[k], post.rounds@[k]));
        }
    }
    assert forall|k: int| 0 <= k < post.rounds@.len() implies ({
        let round = #[trigger] post.rounds@[k];
        &&& round.id == pre.rounds@[0].id + k
        &&& round.peers.contains(p) == (round.id >= third)
        &&& round.peers.super_majority == super_majority_of(round.peers.list().len())
    }) by {
        assert(b.rounds@[k].id == b.rounds@[0].id + k);
        assert(b.rounds@[k].peers.wf());
        assert(b.rounds@[0].id == a.rounds@[0].id);
    }
    let n = post.rounds@.len() - 1;
    assert(post.rounds@[n].id == b.rounds@[n].id);
}

/// Emitting keeps the first round's id and loses no round.
proof fn lemma_history_emitted(pre: Hashgraph, order: Seq<Decided>, post: Hashgraph)
    requires
        emitted(pre, order, post),
        pre.rounds@.len() > 0,
        forall|k: int|
            0 <= k < pre.rounds@.len() ==> (#[trigger] pre.rounds@[k]).id == pre.rounds@[0].id + k,
    ensures
        post.rounds@.len() >= pre.rounds@.len(),
        post.rounds@[0].id == pre.rounds@[0].id,
        forall|k: int|
            0 <= k < post.rounds@.len() ==> (#[trigger] post.rounds@[k]).id == post.rounds@[0].id
                + k,
    decreases order.len(),
{
    if order.len() > 0 {
        let mid = choose|mid: Hashgraph|
            emitted(pre, order.drop_last(), mid) && #[trigger] emitted_one(
                mid,
                order.last(),
                post,
            );
        lemma_history_emitted(pre, order.drop_last(), mid);
        let xi = first_index_of(event_hashes(mid.events.store@), order.last().hash);
        if xi >= 0 {
            let txs = crate::internal_txs::peer_tx_views(
                mid.events.store@[xi].internal_transactions@,
            );
            let target = order.last().received + 3;
            if txs.len() > 0 {
                let r = mid.rounds@;
                let q = post.rounds@;
                assert forall|k: int| 0 <= k < q.len() implies (#[trigger] q[k]).id == r[0].id
                    + k by {
                    let base = if k < r.len() {
                        r[k]
                    } else {
                        r.last()
                    };
                    assert(round_with_members(base, k >= r.len(), r[0].id + k, txs, target, q[k]));
                }
                assert(q[0].id == r[0].id + 0);
            }
        }
    }
}

/// A count of at least one has a witness behind it.
proof fn lemma_one_counted(s: Seq<Event>, e: Event, prev: Round, u: EventHash, n: int)
    requires
        0 <= n <= prev.witnesses@.len(),
        crate::fame::yes_count(s, e, prev, u, n) >= 1,
    ensures
        exists|t: int|
            0 <= t < n && crate::fame::counts_yes(s, e, prev, #[trigger] prev.witnesses@[t], u),
    decreases n,
{
    if n > 0 {
        if crate::fame::counts_yes(s, e, prev, prev.witnesses@[n - 1], u) {
        } else {
            lemma_one_counted(s, e, prev, u, n - 1);
            let t = choose|t: int|
                0 <= t < n - 1 && crate::fame::counts_yes(
                    s,
                    e,
                    prev,
                    #[trigger] prev.witnesses@[t],
                    u,
                );
            assert(crate::fame::counts_yes(s, e, prev, prev.witnesses@[t], u));
        }
    }
}

/// A count of at least two has two places of the witness list behind it.
proof fn lemma_two_counted(s: Seq<Event>, e: Event, prev: Round, u: EventHash, n: int)
    requires
        0 <= n <= prev.witnesses@.len(),
        crate::fame::yes_count(s, e, prev, u, n) >= 2,
    ensures
        exists|t1: int, t2: int|
            0 <= t1 < t2 < n && crate::fame::counts_yes(
                s,
                e,
                prev,
                #[trigger] prev.witnesses@[t1],
                u,
            ) && crate::fame::counts_yes(s, e, prev, #[trigger] prev.witnesses@[t2], u),
    decreases n,
{
    if n > 0 {
        if crate::fame::counts_yes(s, e, prev, prev.witnesses@[n - 1], u) {
            lemma_one_counted(s, e, prev, u, n - 1);
            let t = choose|t: int|
                0 <= t < n - 1 && crate::fame::counts_yes(
                    s,
                    e,
                    prev,
                    #[trigger] prev.witnesses@[t],
                    u,
                );
            assert(crate::fame::counts_yes(s, e, prev, prev.witnesses@[t], u)
                && crate::fame::counts_yes(s, e, prev, prev.witnesses@[n - 1], u));
        } else {
            lemma_two_counted(s, e, prev, u, n - 1);
            let (t1, t2) = choose|t1: int, t2: int|
                0 <= t1 < t2 < n - 1 && crate::fame::counts_yes(
                    s,
                    e,
                    prev,
                    #[trigger] prev.witnesses@[t1],
                    u,
                ) && crate::fame::counts_yes(s, e, prev, #[trigger] prev.witnesses@[t2], u);
            assert(crate::fame::counts_yes(s, e, prev, prev.witnesses@[t1], u)
                && crate::fame::counts_yes(s, e, prev, prev.witnesses@[t2], u));
        }
    }
}

/// With two peers, fame takes two: where the round of the witness `u` has
/// two peers, the verdict that the witness `e` brings about on `u` is
/// "famous" only where two entries of the witness list of the round
/// between them are strongly seen by `e` and have voted yes on `u`.
pub proof fn law_fame_of_two_takes_two(s: Seq<Event>, e: Event, prev: Round, target: Round, u: RoundEvent)
    requires
        target.peers.wf(),
        target.peers.list().len() == 2,
        u.witness,
        u.famous == FamousType::Undefined,
        crate::fame::verdict(s, e, prev, target.peers.super_majority, u) == FamousType::True,
    ensures
        exists|t1: int, t2: int|
            0 <= t1 < t2 < prev.witnesses@.len() && crate::fame::counts_yes(
                s,
                e,
                prev,
                #[trigger] prev.witnesses@[t1],
                u.hash,
            ) && crate::fame::counts_yes(s, e, prev, #[trigger] prev.witnesses@[t2], u.hash),
{
    lemma_two_counted(s, e, prev, u.hash, prev.witnesses@.len() as int);
}

} // verus!
