use vstd::prelude::*;
use std::collections::HashMap;

use crate::event::{Event, EventCreator, EventHash, EventView};
use crate::index::{
    distinct, first_index_of, lemma_first_index_is, lemma_first_index_none, lemma_first_index_of,
};
use crate::peers::Peers;

verus! {

/// The hashes of a list of events, in order.
pub open spec fn event_hashes(s: Seq<Event>) -> Seq<u64> {
    Seq::new(s.len(), |i: int| s[i].hash)
}

/// The values of a list of events, in order.
pub open spec fn event_views(s: Seq<Event>) -> Seq<EventView> {
    Seq::new(s.len(), |i: int| s[i]@)
}

/// The place, among the first `n` events of `s`, of the event with hash `h`;
/// -1 where there is none.
pub open spec fn index_below(s: Seq<Event>, n: int, h: EventHash) -> int {
    first_index_of(event_hashes(s).take(n), h)
}

/// The place of the parent that the hash `h` names, looked for among the
/// first `n` events: a parent stands before its child, and 0 names no parent.
pub open spec fn parent_index(s: Seq<Event>, n: int, h: EventHash) -> int {
    if h == 0 {
        -1
    } else {
        index_below(s, n, h)
    }
}

/// The place of the last event of `creator`, or -1.
pub open spec fn last_of(s: Seq<Event>, creator: EventCreator) -> int
    decreases s.len(),
{
    if s.len() == 0 {
        -1
    } else if s.last().creator == creator {
        s.len() - 1
    } else {
        last_of(s.drop_last(), creator)
    }
}

/// Whether the store `s` takes the event `e`: its hash is new, and either
/// its creator has no event yet and `e` is a root, or `e` names the
/// creator's last event as self-parent and carries the next id.
pub open spec fn acceptable(s: Seq<Event>, e: Event) -> bool {
    let last = last_of(s, e.creator);
    &&& first_index_of(event_hashes(s), e.hash) < 0
    &&& if last < 0 {
        e.self_parent == 0
    } else {
        &&& e.self_parent != 0
        &&& first_index_of(event_hashes(s), e.self_parent) == last
        &&& s[last].id + 1 == e.id
    }
}

/// `e` follows `before`, an event of its creator: it has the id after it
/// and names it as self-parent.
pub open spec fn follows(before: Event, e: Event) -> bool {
    before.id + 1 == e.id && e.self_parent == before.hash && e.self_parent != 0
}

/// Every event follows the event of its creator that stands before it.
pub open spec fn gapless(s: Seq<Event>) -> bool {
    forall|i: int|
        0 <= i < s.len() ==> {
            let p = #[trigger] last_of(s.take(i), s[i].creator);
            p >= 0 ==> follows(s[p], s[i])
        }
}

/// The self-parent of every event, where the store holds it, is by the same
/// creator and has the id before.
pub open spec fn self_parents_consistent(s: Seq<Event>) -> bool {
    forall|i: int|
        0 <= i < s.len() ==> {
            let q = #[trigger] parent_index(s, i, s[i].self_parent);
            q >= 0 ==> s[q].creator == s[i].creator && s[q].id + 1 == s[i].id
        }
}

/// No event lies in an earlier round than its self-parent, where the store
/// holds that.
pub open spec fn rounds_monotone(s: Seq<Event>) -> bool {
    forall|i: int|
        0 <= i < s.len() ==> {
            let q = #[trigger] parent_index(s, i, s[i].self_parent);
            q >= 0 ==> s[q].round <= s[i].round
        }
}

/// The place of a creator's last event holds an event of the creator, and
/// nothing after it does.
pub proof fn lemma_last_of(s: Seq<Event>, creator: EventCreator)
    ensures
        -1 <= last_of(s, creator) < s.len(),
        last_of(s, creator) >= 0 ==> s[last_of(s, creator)].creator == creator,
        forall|j: int| last_of(s, creator) < j < s.len() ==> s[j].creator != creator,
    decreases s.len(),
{
    if s.len() > 0 && s.last().creator != creator {
        lemma_last_of(s.drop_last(), creator);
        let p = last_of(s.drop_last(), creator);
        if p >= 0 {
            assert(s.drop_last()[p] == s[p]);
        }
        assert forall|j: int| p < j < s.len() implies s[j].creator != creator by {
            if j < s.len() - 1 {
                assert(s.drop_last()[j] == s[j]);
            }
        }
    }
}

/// The creators that a list of last-known ids speaks of, in order.
pub open spec fn known_keys(k: Seq<(EventCreator, u64)>) -> Seq<u64> {
    Seq::new(k.len(), |i: int| k[i].0)
}

/// The last id that the list `k` knows of `creator`: that of its first
/// entry for it.
pub open spec fn listed_id(k: Seq<(EventCreator, u64)>, creator: EventCreator) -> Option<u64> {
    let i = first_index_of(known_keys(k), creator);
    if i >= 0 {
        Some(k[i].1)
    } else {
        None
    }
}

/// The last id that `known` holds for `creator`.
pub open spec fn known_id(known: Map<EventCreator, u64>, creator: EventCreator) -> Option<u64> {
    if known.contains_key(creator) {
        Some(known[creator])
    } else {
        None
    }
}

/// The list `k` as a map from creator to last id; of two entries for one
/// creator the later counts.
pub open spec fn as_map(k: Seq<(EventCreator, u64)>) -> Map<EventCreator, u64>
    decreases k.len(),
{
    if k.len() == 0 {
        Map::empty()
    } else {
        as_map(k.drop_last()).insert(k.last().0, k.last().1)
    }
}

/// What the store `s` knows: for each creator the id of its last event.
pub open spec fn known_map(s: Seq<Event>) -> Map<EventCreator, u64> {
    as_map(known_of(s))
}

/// For each creator of `s`, in order of first appearance, the id of its
/// last event.
pub open spec fn known_of(s: Seq<Event>) -> Seq<(EventCreator, u64)>
    decreases s.len(),
{
    if s.len() == 0 {
        Seq::empty()
    } else {
        let k = known_of(s.drop_last());
        let e = s.last();
        let i = first_index_of(known_keys(k), e.creator);
        if i >= 0 {
            k.update(i, (e.creator, e.id))
        } else {
            k.push((e.creator, e.id))
        }
    }
}

/// The events of `creator` in `s` whose id is above `lo` and at most `hi`,
/// in order.
pub open spec fn selected(s: Seq<Event>, creator: EventCreator, lo: int, hi: int) -> Seq<Event>
    decreases s.len(),
{
    if s.len() == 0 {
        Seq::empty()
    } else if s.last().creator == creator && lo < s.last().id <= hi {
        selected(s.drop_last(), creator, lo, hi).push(s.last())
    } else {
        selected(s.drop_last(), creator, lo, hi)
    }
}

/// Whether a creator's events are cut short: the remote knows `other`, the
/// store `last`, and more than `limit` events lie between (0: no limit).
pub open spec fn truncated(last: u64, other: u64, limit: u64) -> bool {
    limit > 0 && other + limit < last
}

/// The highest id sent of a creator of whom the remote knows `other`.
pub open spec fn upper_id(last: u64, other: u64, limit: u64) -> int {
    if truncated(last, other, limit) {
        other + limit
    } else {
        last as int
    }
}

/// What is sent to a remote that knows `other`: for each creator of the
/// local view `k`, in order, its events above what the remote knows
/// (at most `limit` of them where `limit` is not 0), or all of its events
/// where the remote does not know it; nothing for a creator of whom the
/// remote knows as much.
pub open spec fn diff_of(
    s: Seq<Event>,
    k: Seq<(EventCreator, u64)>,
    other: Map<EventCreator, u64>,
    limit: u64,
) -> Seq<(EventCreator, Seq<EventView>)>
    decreases k.len(),
{
    if k.len() == 0 {
        Seq::empty()
    } else {
        let d = diff_of(s, k.drop_last(), other, limit);
        let (creator, last) = k.last();
        match known_id(other, creator) {
            None => d.push((creator, event_views(selected(s, creator, -1, u64::MAX as int)))),
            Some(o) => if o < last {
                d.push((creator, event_views(selected(s, creator, o as int, upper_id(last, o, limit)))))
            } else {
                d
            },
        }
    }
}

/// Whether some creator's events are cut short.
pub open spec fn has_more_of(
    k: Seq<(EventCreator, u64)>,
    other: Map<EventCreator, u64>,
    limit: u64,
) -> bool
    decreases k.len(),
{
    if k.len() == 0 {
        false
    } else {
        has_more_of(k.drop_last(), other, limit) || match known_id(other, k.last().0) {
            None => false,
            Some(o) => o < k.last().1 && truncated(k.last().1, o, limit),
        }
    }
}

/// The events of one creator, in order of id.
#[derive(Debug, Clone)]
pub struct CreatorEvents {
    pub creator: EventCreator,
    pub events: Vec<Event>,
}

/// What a list of per-creator events holds: each creator with the values of
/// its events.
pub open spec fn diff_views(d: Seq<CreatorEvents>) -> Seq<(EventCreator, Seq<EventView>)> {
    Seq::new(d.len(), |i: int| (d[i].creator, event_views(d[i].events@)))
}

/// One round of a frame: its peer set and the events of its peers.
#[derive(Debug, Clone)]
pub struct FrameRound {
    pub id: u64,
    pub peers: Peers,
    pub events: Vec<CreatorEvents>,
}

/// A snapshot of the last rounds, from which a joining node starts.
#[derive(Debug, Clone)]
pub struct Frame {
    pub events: Vec<FrameRound>,
}

impl Frame {
    /// A frame without rounds.
    pub fn new() -> (r: Frame)
        ensures
            r.events@.len() == 0,
    {
        Frame { events: Vec::new() }
    }
}

impl Default for Frame {
    /// A frame without rounds.
    fn default() -> (r: Frame)
        ensures
            r.events@.len() == 0,
    {
        Frame::new()
    }
}

/// What one node sends another: what it knows, and the events that the
/// other lacks.
#[derive(Debug, Clone)]
pub struct EventsDiff {
    pub known: HashMap<EventCreator, u64>,
    pub diff: Vec<CreatorEvents>,
    pub sender_id: EventCreator,
    pub has_more: bool,
}

impl Default for EventsDiff {
    /// A diff of nothing, from the sender 0.
    fn default() -> (r: EventsDiff)
        ensures
            r.known@ == Map::<EventCreator, u64>::empty(),
            r.diff@.len() == 0,
            r.sender_id == 0,
            !r.has_more,
    {
        EventsDiff { known: HashMap::new(), diff: Vec::new(), sender_id: 0, has_more: false }
    }
}

/// The list `k` as a map from creator to last id.
pub fn list_to_map(k: &Vec<(EventCreator, u64)>) -> (r: HashMap<EventCreator, u64>)
    ensures
        r@ == as_map(k@),
{
    let mut r: HashMap<EventCreator, u64> = HashMap::new();
    let mut i: usize = 0;
    proof {
        assert(k@.take(0) =~= Seq::<(EventCreator, u64)>::empty());
    }
    while i < k.len()
        invariant
            i <= k@.len(),
            r@ == as_map(k@.take(i as int)),
        decreases k@.len() - i,
    {
        proof {
            assert(k@.take(i + 1).drop_last() =~= k@.take(i as int));
            assert(k@.take(i + 1).last() == k@[i as int]);
        }
        r.insert(k[i].0, k[i].1);
        i += 1;
    }
    proof {
        assert(k@.take(k@.len() as int) =~= k@);
    }
    r
}

/// The place of the first entry of `k` for `creator`.
pub fn find_known(k: &Vec<(EventCreator, u64)>, creator: EventCreator) -> (r: Option<usize>)
    ensures
        match r {
            Some(i) => i as int == first_index_of(known_keys(k@), creator) && i < k@.len()
                && listed_id(k@, creator) == Some(k@[i as int].1),
            None => first_index_of(known_keys(k@), creator) == -1 && listed_id(k@, creator)
                is None,
        },
{
    let ghost keys = known_keys(k@);
    let mut i: usize = 0;
    while i < k.len()
        invariant
            i <= k.len(),
            keys == known_keys(k@),
            forall|j: int| 0 <= j < i ==> keys[j] != creator,
        decreases k.len() - i,
    {
        if k[i].0 == creator {
            proof {
                assert(keys[i as int] == creator);
                lemma_first_index_is(keys, creator, i as int);
            }
            return Some(i);
        }
        assert(keys[i as int] == k@[i as int].0);
        i += 1;
    }
    proof {
        lemma_first_index_none(keys, creator);
    }
    None
}

/// The events of a node, in order of arrival, with the index by hash, the
/// hashes of those whose received round is not decided yet, and the memo
/// of ancestry.
#[derive(Debug, Clone)]
pub struct Events {
    pub store: Vec<Event>,
    /// The index by hash: for each stored hash, the place of its event.
    pub by_hash: HashMap<EventHash, usize>,
    pub undecided: Vec<EventHash>,
    /// The memo of ancestry: for each stored event, of each event before
    /// it, whether that is an ancestor of it.
    pub reach: Vec<Vec<bool>>,
}

impl Default for Events {
    /// An empty store.
    fn default() -> (r: Events)
        ensures
            r.wf(),
            r.store@.len() == 0,
            r.undecided@.len() == 0,
    {
        Events::new()
    }
}

impl Events {
    /// The hashes of the stored events, in order.
    pub open spec fn hashes(&self) -> Seq<u64> {
        event_hashes(self.store@)
    }

    /// No hash occurs twice, and the index by hash is in order.
    pub open spec fn indexed(&self) -> bool {
        &&& distinct(self.hashes())
        &&& index_ok(self.store@, self.by_hash@)
    }

    /// No hash occurs twice, the index by hash is in order, ids have no
    /// gaps, self-parents are what they should be, and the memo of
    /// ancestry is in order.
    pub open spec fn wf(&self) -> bool {
        &&& self.indexed()
        &&& gapless(self.store@)
        &&& self_parents_consistent(self.store@)
        &&& crate::ancestry::memo_ok(self.store@, self.reach@)
    }

    /// An empty store.
    pub fn new() -> (r: Events)
        ensures
            r.wf(),
            r.store@.len() == 0,
            r.undecided@.len() == 0,
    {
        let r = Events {
            store: Vec::new(),
            by_hash: HashMap::new(),
            undecided: Vec::new(),
            reach: Vec::new(),
        };
        proof {
            assert forall|h: EventHash| !(#[trigger] r.by_hash@.contains_key(h)) by {}
            assert forall|h: EventHash| first_index_of(event_hashes(r.store@), h) < 0 by {
                lemma_first_index_of(event_hashes(r.store@), h);
            }
        }
        assert(r.store@.take(0) =~= r.store@);
        r
    }

    /// The place of the event with this hash among the first `n` events.
    pub fn find_below(&self, n: usize, hash: EventHash) -> (r: Option<usize>)
        requires
            self.indexed(),
            n <= self.store@.len(),
        ensures
            match r {
                Some(i) => i as int == index_below(self.store@, n as int, hash) && i < n
                    && self.store@[i as int].hash == hash,
                None => index_below(self.store@, n as int, hash) == -1,
            },
    {
        proof {
            crate::index::lemma_first_index_below(self.hashes(), n as int, hash);
        }
        match self.find(hash) {
            Some(i) => {
                if i < n {
                    Some(i)
                } else {
                    None
                }
            },
            None => None,
        }
    }

    /// The place of the event with this hash, as the index has it.
    pub fn find(&self, hash: EventHash) -> (r: Option<usize>)
        requires
            self.indexed(),
        ensures
            match r {
                Some(i) => i as int == first_index_of(self.hashes(), hash) && i
                    < self.store@.len() && self.store@[i as int].hash == hash,
                None => first_index_of(self.hashes(), hash) == -1,
            },
    {
        proof {
            lemma_first_index_of(self.hashes(), hash);
            assert(self.by_hash@.contains_key(hash) <==> first_index_of(self.hashes(), hash) >= 0);
        }
        match self.by_hash.get(&hash) {
            Some(i) => {
                proof {
                    let k = first_index_of(self.hashes(), hash);
                    assert(self.hashes()[k] == self.store@[k].hash);
                }
                Some(*i)
            },
            None => None,
        }
    }

    /// The place, among the first `n` events, of the parent named `hash`.
    pub fn find_parent(&self, n: usize, hash: EventHash) -> (r: Option<usize>)
        requires
            self.indexed(),
            n <= self.store@.len(),
        ensures
            match r {
                Some(i) => i as int == parent_index(self.store@, n as int, hash) && i < n,
                None => parent_index(self.store@, n as int, hash) == -1,
            },
    {
        if hash == 0 {
            None
        } else {
            self.find_below(n, hash)
        }
    }

    /// The place of the last event of `creator`.
    pub fn last_index_of(&self, creator: EventCreator) -> (r: Option<usize>)
        ensures
            match r {
                Some(i) => i as int == last_of(self.store@, creator) && i < self.store@.len(),
                None => last_of(self.store@, creator) == -1,
            },
    {
        let mut n: usize = self.store.len();
        proof {
            assert(self.store@.take(n as int) =~= self.store@);
        }
        while n > 0
            invariant
                n <= self.store@.len(),
                last_of(self.store@, creator) == last_of(self.store@.take(n as int), creator),
            decreases n,
        {
            proof {
                assert(self.store@.take(n as int).drop_last() =~= self.store@.take(n - 1));
            }
            if self.store[n - 1].creator == creator {
                return Some(n - 1);
            }
            n -= 1;
        }
        None
    }

    /// Whether the store takes `event`.
    pub fn check_event(&self, event: &Event) -> (r: bool)
        requires
            self.indexed(),
        ensures
            r == acceptable(self.store@, *event),
    {
        if self.find(event.hash).is_some() {
            return false;
        }
        match self.last_index_of(event.creator) {
            None => event.self_parent == 0,
            Some(last) => {
                if event.self_parent == 0 {
                    return false;
                }
                match self.find(event.self_parent) {
                    None => false,
                    Some(sp) => {
                        let prev = self.store[last].id;
                        sp == last && prev < u64::MAX && prev + 1 == event.id
                    },
                }
            },
        }
    }

    /// Takes `event` if the store accepts it and files it as undecided.
    pub fn insert_event(&mut self, event: Event) -> (r: bool)
        requires
            old(self).wf(),
        ensures
            final(self).wf(),
            r == acceptable(old(self).store@, event),
            r ==> final(self).store@ == old(self).store@.push(event) && final(self).undecided@
                == old(self).undecided@.push(event.hash),
            !r ==> *final(self) == *old(self),
            rounds_monotone(old(self).store@) && follows_parent(old(self).store@, event)
                ==> rounds_monotone(final(self).store@),
    {
        if !self.check_event(&event) {
            return false;
        }
        let row = self.ancestor_marks(self.store.len(), event.self_parent, event.other_parent);
        proof {
            lemma_push_keeps_wf(self.store@, event);
            if rounds_monotone(self.store@) && follows_parent(self.store@, event) {
                lemma_push_keeps_rounds(self.store@, event);
            }
            crate::ancestry::lemma_memo_push(self.store@, self.reach@, event, row);
            lemma_index_push(self.store@, self.by_hash@, event);
        }
        self.by_hash.insert(event.hash, self.store.len());
        self.undecided.push(event.hash);
        self.store.push(event);
        self.reach.push(row);
        true
    }

    /// A copy of the event with this hash.
    pub fn get_event(&self, hash: &EventHash) -> (r: Option<Event>)
        requires
            self.indexed(),
        ensures
            match r {
                Some(e) => first_index_of(self.hashes(), *hash) >= 0 && e@
                    == self.store@[first_index_of(self.hashes(), *hash)]@,
                None => first_index_of(self.hashes(), *hash) == -1,
            },
    {
        match self.find(*hash) {
            Some(i) => Some(self.store[i].clone()),
            None => None,
        }
    }

    /// A copy of the last event of `creator`.
    pub fn get_last_event_of(&self, creator: EventCreator) -> (r: Option<Event>)
        ensures
            match r {
                Some(e) => last_of(self.store@, creator) >= 0 && e@ == self.store@[last_of(
                    self.store@,
                    creator,
                )]@,
                None => last_of(self.store@, creator) == -1,
            },
    {
        match self.last_index_of(creator) {
            Some(i) => Some(self.store[i].clone()),
            None => None,
        }
    }

    /// For each creator, the id of its last event.
    pub fn known_events(&self) -> (r: HashMap<EventCreator, u64>)
        ensures
            r@ == known_map(self.store@),
    {
        let list = self.known_list();
        list_to_map(&list)
    }

    /// For each creator, in order of first appearance, the id of its last
    /// event.
    pub fn known_list(&self) -> (r: Vec<(EventCreator, u64)>)
        ensures
            r@ == known_of(self.store@),
    {
        let mut r: Vec<(EventCreator, u64)> = Vec::new();
        let mut i: usize = 0;
        proof {
            assert(self.store@.take(0) =~= Seq::<Event>::empty());
        }
        while i < self.store.len()
            invariant
                i <= self.store.len(),
                r@ == known_of(self.store@.take(i as int)),
            decreases self.store.len() - i,
        {
            proof {
                assert(self.store@.take(i + 1).drop_last() =~= self.store@.take(i as int));
                assert(self.store@.take(i + 1).last() == self.store@[i as int]);
            }
            let creator = self.store[i].creator;
            let id = self.store[i].id;
            match find_known(&r, creator) {
                Some(at) => {
                    r.set(at, (creator, id));
                },
                None => {
                    r.push((creator, id));
                },
            }
            i += 1;
        }
        proof {
            assert(self.store@.take(self.store.len() as int) =~= self.store@);
        }
        r
    }

    /// Copies of the events of `creator` whose id is above `lo` (every id
    /// where `lo` is none) and at most `hi`.
    pub fn select(&self, creator: EventCreator, lo: Option<u64>, hi: u64) -> (r: Vec<Event>)
        ensures
            event_views(r@) == event_views(
                selected(
                    self.store@,
                    creator,
                    match lo {
                        Some(l) => l as int,
                        None => -1,
                    },
                    hi as int,
                ),
            ),
    {
        let ghost low: int = match lo {
            Some(l) => l as int,
            None => -1,
        };
        let mut r: Vec<Event> = Vec::new();
        let mut i: usize = 0;
        proof {
            assert(self.store@.take(0) =~= Seq::<Event>::empty());
        }
        while i < self.store.len()
            invariant
                i <= self.store.len(),
                low == match lo {
                    Some(l) => l as int,
                    None => -1,
                },
                event_views(r@) == event_views(
                    selected(self.store@.take(i as int), creator, low, hi as int),
                ),
            decreases self.store.len() - i,
        {
            proof {
                assert(self.store@.take(i + 1).drop_last() =~= self.store@.take(i as int));
                assert(self.store@.take(i + 1).last() == self.store@[i as int]);
            }
            let e = &self.store[i];
            let above = match lo {
                Some(l) => l < e.id,
                None => true,
            };
            if e.creator == creator && above && e.id <= hi {
                let ghost before = r@;
                r.push(e.clone());
                proof {
                    let sel = selected(self.store@.take(i as int), creator, low, hi as int);
                    lemma_event_views_push(before, r@.last());
                    lemma_event_views_push(sel, self.store@[i as int]);
                    assert(r@ =~= before.push(r@.last()));
                }
            }
            i += 1;
        }
        proof {
            assert(self.store@.take(self.store.len() as int) =~= self.store@);
        }
        r
    }

    /// What to send a remote that knows `other_known`, with at most `limit`
    /// events of a creator that it knows (0: no limit).
    pub fn events_diff(&self, other_known: HashMap<EventCreator, u64>, limit: u64) -> (r:
        EventsDiff)
        ensures
            r.sender_id == 0,
            r.known@ == known_map(self.store@),
            r.has_more == has_more_of(known_of(self.store@), other_known@, limit),
            diff_views(r.diff@) == diff_of(
                self.store@,
                known_of(self.store@),
                other_known@,
                limit,
            ),
    {
        let known = self.known_list();
        let mut diff: Vec<CreatorEvents> = Vec::new();
        let mut has_more = false;
        let mut i: usize = 0;
        proof {
            assert(known@.take(0) =~= Seq::<(EventCreator, u64)>::empty());
            assert(diff_views(diff@) =~= Seq::<(EventCreator, Seq<EventView>)>::empty());
        }
        while i < known.len()
            invariant
                i <= known.len(),
                has_more == has_more_of(known@.take(i as int), other_known@, limit),
                diff_views(diff@) == diff_of(
                    self.store@,
                    known@.take(i as int),
                    other_known@,
                    limit,
                ),
            decreases known.len() - i,
        {
            proof {
                assert(known@.take(i + 1).drop_last() =~= known@.take(i as int));
                assert(known@.take(i + 1).last() == known@[i as int]);
            }
            let creator = known[i].0;
            let last = known[i].1;
            let ghost before = diff@;
            let theirs: Option<u64> = match other_known.get(&creator) {
                Some(id) => Some(*id),
                None => None,
            };
            assert(theirs == known_id(other_known@, creator));
            match theirs {
                None => {
                    let events = self.select(creator, None, u64::MAX);
                    diff.push(CreatorEvents { creator, events });
                    proof {
                        assert(diff_views(diff@) =~= diff_views(before).push(
                            (
                                creator,
                                event_views(selected(self.store@, creator, -1, u64::MAX as int)),
                            ),
                        ));
                    }
                },
                Some(other) => {
                    if other < last {
                        let mut hi = last;
                        if limit > 0 && limit < last - other {
                            has_more = true;
                            hi = other + limit;
                        }
                        let events = self.select(creator, Some(other), hi);
                        diff.push(CreatorEvents { creator, events });
                        proof {
                            assert(hi as int == upper_id(last, other, limit));
                            assert(diff_views(diff@) =~= diff_views(before).push(
                                (
                                    creator,
                                    event_views(
                                        selected(
                                            self.store@,
                                            creator,
                                            other as int,
                                            upper_id(last, other, limit),
                                        ),
                                    ),
                                ),
                            ));
                        }
                    }
                },
            }
            i += 1;
        }
        proof {
            assert(known@.take(known.len() as int) =~= known@);
        }
        EventsDiff { known: list_to_map(&known), diff, sender_id: 0, has_more }
    }
}

/// The values of a list with one more event are the values with one more.
pub proof fn lemma_event_views_push(s: Seq<Event>, e: Event)
    ensures
        event_views(s.push(e)) == event_views(s).push(e@),
{
    assert(event_views(s.push(e)) =~= event_views(s).push(e@));
}

/// The index by hash holds, for every hash of the store and no other, the
/// place of the event with that hash.
pub open spec fn index_ok(s: Seq<Event>, index: Map<EventHash, usize>) -> bool {
    forall|h: EventHash|
        (#[trigger] index.contains_key(h) <==> first_index_of(event_hashes(s), h) >= 0) && (
        index.contains_key(h) ==> index[h] as int == first_index_of(event_hashes(s), h))
}

/// The index stays in order when an event with a new hash is put at the
/// end of the store and into the index.
pub proof fn lemma_index_push(s: Seq<Event>, index: Map<EventHash, usize>, e: Event)
    requires
        index_ok(s, index),
        first_index_of(event_hashes(s), e.hash) < 0,
        s.len() <= usize::MAX,
    ensures
        index_ok(s.push(e), index.insert(e.hash, s.len() as usize)),
{
    let t = s.push(e);
    let after = index.insert(e.hash, s.len() as usize);
    assert(event_hashes(t) =~= event_hashes(s).push(e.hash));
    assert forall|h: EventHash|
        (#[trigger] after.contains_key(h) <==> first_index_of(event_hashes(t), h) >= 0) && (
        after.contains_key(h) ==> after[h] as int == first_index_of(event_hashes(t), h)) by {
        crate::index::lemma_first_index_push(event_hashes(s), e.hash, h);
        assert(index.contains_key(h) <==> first_index_of(event_hashes(s), h) >= 0);
    }
}

/// The new event `e` lies in no earlier round than its self-parent in `s`.
pub open spec fn follows_parent(s: Seq<Event>, e: Event) -> bool {
    let q = parent_index(s, s.len() as int, e.self_parent);
    q >= 0 ==> s[q].round <= e.round
}

/// A new event that lies in no earlier round than its self-parent keeps
/// the rounds from falling.
pub proof fn lemma_push_keeps_rounds(s: Seq<Event>, e: Event)
    requires
        rounds_monotone(s),
        follows_parent(s, e),
    ensures
        rounds_monotone(s.push(e)),
{
    let t = s.push(e);
    let n = s.len() as int;
    let hs = event_hashes(s);
    let ht = event_hashes(t);
    assert(ht.take(n) =~= hs);
    assert(hs.take(n) =~= hs);
    assert forall|i: int| 0 <= i < t.len() implies ({
        let q = #[trigger] parent_index(t, i, t[i].self_parent);
        q >= 0 ==> t[q].round <= t[i].round
    }) by {
        if i < n {
            assert(ht.take(i) =~= hs.take(i));
            let q = parent_index(s, i, s[i].self_parent);
            lemma_first_index_of(hs.take(i), s[i].self_parent);
        } else {
            lemma_first_index_of(hs, e.self_parent);
        }
    }
}

/// A store that accepts an event is still well-formed with the event at its end.
pub proof fn lemma_push_keeps_wf(s: Seq<Event>, e: Event)
    requires
        distinct(event_hashes(s)),
        gapless(s),
        self_parents_consistent(s),
        acceptable(s, e),
    ensures
        distinct(event_hashes(s.push(e))),
        gapless(s.push(e)),
        self_parents_consistent(s.push(e)),
{
    let t = s.push(e);
    let n = s.len() as int;
    let hs = event_hashes(s);
    let ht = event_hashes(t);
    lemma_first_index_of(hs, e.hash);
    assert forall|i: int, j: int| 0 <= i < j < ht.len() implies ht[i] != ht[j] by {
        if j < n {
            assert(hs[i] == ht[i] && hs[j] == ht[j]);
        } else {
            assert(hs[i] == ht[i]);
        }
    }
    assert(t.take(n) =~= s);
    assert(ht.take(n) =~= hs);
    assert forall|i: int| 0 <= i < t.len() implies ({
        let p = #[trigger] last_of(t.take(i), t[i].creator);
        p >= 0 ==> follows(t[p], t[i])
    }) by {
        if i < n {
            assert(t.take(i) =~= s.take(i));
            let p = last_of(s.take(i), s[i].creator);
            lemma_last_of(s.take(i), s[i].creator);
        } else {
            lemma_last_of(s, e.creator);
            lemma_first_index_of(hs, e.self_parent);
            let last = last_of(s, e.creator);
            if last >= 0 {
                assert(hs[last] == s[last].hash);
            }
        }
    }
    assert forall|i: int| 0 <= i < t.len() implies ({
        let q = #[trigger] parent_index(t, i, t[i].self_parent);
        q >= 0 ==> t[q].creator == t[i].creator && t[q].id + 1 == t[i].id
    }) by {
        if i < n {
            assert(ht.take(i) =~= hs.take(i));
            let q = parent_index(s, i, s[i].self_parent);
            lemma_first_index_of(hs.take(i), s[i].self_parent);
        } else {
            lemma_last_of(s, e.creator);
            lemma_first_index_of(hs, e.self_parent);
        }
    }
}

/// The place of the last event of `creator` is `p` where `s[p]` is by
/// `creator` and nothing after it is.
pub proof fn lemma_last_of_is(s: Seq<Event>, creator: EventCreator, p: int)
    requires
        0 <= p < s.len(),
        s[p].creator == creator,
        forall|j: int| p < j < s.len() ==> s[j].creator != creator,
    ensures
        last_of(s, creator) == p,
{
    lemma_last_of(s, creator);
}

/// A creator without events has no last event.
pub proof fn lemma_last_of_none(s: Seq<Event>, creator: EventCreator)
    requires
        forall|j: int| 0 <= j < s.len() ==> s[j].creator != creator,
    ensures
        last_of(s, creator) == -1,
{
    lemma_last_of(s, creator);
}

/// Whether the hash `h` is listed in `hashes`.
pub open spec fn listed(hashes: Seq<EventHash>, h: EventHash) -> bool {
    first_index_of(hashes, h) >= 0
}

/// The event at place `j` is a listed event of the creator of the event at
/// place `i`, and does not stand before it.
pub open spec fn dooms(s: Seq<Event>, hashes: Seq<EventHash>, i: int, j: int) -> bool {
    i <= j < s.len() && s[j].creator == s[i].creator && listed(hashes, s[j].hash)
}

/// The event at place `i` is forgotten with the hashes `hashes`: it is
/// listed, or a later event of its creator is.
pub open spec fn doomed(s: Seq<Event>, hashes: Seq<EventHash>, i: int) -> bool {
    exists|j: int| #[trigger] dooms(s, hashes, i, j)
}

/// Those of the first `n` events that are not forgotten, in order.
pub open spec fn kept_prefix(s: Seq<Event>, hashes: Seq<EventHash>, n: int) -> Seq<Event>
    decreases n,
{
    if n <= 0 {
        Seq::empty()
    } else if doomed(s, hashes, n - 1) {
        kept_prefix(s, hashes, n - 1)
    } else {
        kept_prefix(s, hashes, n - 1).push(s[n - 1])
    }
}

/// What the store keeps when the events `hashes` are forgotten.
pub open spec fn survivors(s: Seq<Event>, hashes: Seq<EventHash>) -> Seq<Event> {
    kept_prefix(s, hashes, s.len() as int)
}

/// The hashes of `u`, in order, that occur in `hs`.
pub open spec fn present_only(u: Seq<EventHash>, hs: Seq<EventHash>) -> Seq<EventHash>
    decreases u.len(),
{
    if u.len() == 0 {
        Seq::empty()
    } else if first_index_of(hs, u.last()) >= 0 {
        present_only(u.drop_last(), hs).push(u.last())
    } else {
        present_only(u.drop_last(), hs)
    }
}

/// What is kept of the first `n` events are events among them that are
/// not forgotten.
proof fn lemma_kept_prefix_members(s: Seq<Event>, hashes: Seq<EventHash>, n: int)
    requires
        0 <= n <= s.len(),
    ensures
        kept_prefix(s, hashes, n).len() <= n,
        forall|a: int|
            0 <= a < kept_prefix(s, hashes, n).len() ==> exists|b: int|
                0 <= b < n && !doomed(s, hashes, b) && #[trigger] s[b] == #[trigger] kept_prefix(
                    s,
                    hashes,
                    n,
                )[a],
    decreases n,
{
    if n > 0 {
        lemma_kept_prefix_members(s, hashes, n - 1);
        let k = kept_prefix(s, hashes, n);
        let f = kept_prefix(s, hashes, n - 1);
        assert forall|a: int| 0 <= a < k.len() implies exists|b: int|
            0 <= b < n && !doomed(s, hashes, b) && #[trigger] s[b] == #[trigger] k[a] by {
            if a < f.len() {
                let b = choose|b: int|
                    0 <= b < n - 1 && !doomed(s, hashes, b) && #[trigger] s[b] == #[trigger] f[a];
                assert(s[b] == k[a]);
            } else {
                assert(s[n - 1] == k[a]);
            }
        }
    }
}

/// Taking out an event before which its creator has none leaves a
/// well-formed store well-formed.
pub proof fn lemma_remove_first_keeps_wf(s: Seq<Event>, i: int)
    requires
        distinct(event_hashes(s)),
        gapless(s),
        self_parents_consistent(s),
        0 <= i < s.len(),
        forall|a: int| 0 <= a < i ==> s[a].creator != s[i].creator,
    ensures
        distinct(event_hashes(s.remove(i))),
        gapless(s.remove(i)),
        self_parents_consistent(s.remove(i)),
{
    let t = s.remove(i);
    let hs = event_hashes(s);
    let ht = event_hashes(t);
    assert forall|a: int, b: int| 0 <= a < b < ht.len() implies ht[a] != ht[b] by {
        let a0 = if a < i { a } else { a + 1 };
        let b0 = if b < i { b } else { b + 1 };
        assert(ht[a] == hs[a0] && ht[b] == hs[b0]);
    }
    assert forall|a: int| 0 <= a < t.len() implies ({
        let p = #[trigger] last_of(t.take(a), t[a].creator);
        p >= 0 ==> follows(t[p], t[a])
    }) by {
        let c = t[a].creator;
        if a < i {
            assert(t.take(a) =~= s.take(a));
            lemma_last_of(s.take(a), s[a].creator);
            let p = last_of(s.take(a), s[a].creator);
            if p >= 0 {
                assert(follows(s[p], s[a]));
                assert(t[p] == s[p]);
            }
        } else {
            let a0 = a + 1;
            let ps = last_of(s.take(a0), s[a0].creator);
            assert(ps >= 0 ==> follows(s[ps], s[a0]));
            lemma_last_of(s.take(a0), c);
            let tt = t.take(a);
            assert(t[a] == s[a0]);
            if ps > i {
                assert(tt[ps - 1] == s[ps]);
                assert(t[ps - 1] == s[ps]);
                assert forall|j: int| ps - 1 < j < tt.len() implies tt[j].creator != c by {
                    assert(tt[j] == s.take(a0)[j + 1]);
                }
                lemma_last_of_is(tt, c, ps - 1);
            } else if ps == i {
                assert forall|j: int| 0 <= j < tt.len() implies tt[j].creator != c by {
                    if j < i {
                        assert(tt[j] == s[j]);
                    } else {
                        assert(tt[j] == s.take(a0)[j + 1]);
                    }
                }
                lemma_last_of_none(tt, c);
            } else if ps >= 0 {
                assert(tt[ps] == s[ps]);
                assert(t[ps] == s[ps]);
                assert forall|j: int| ps < j < tt.len() implies tt[j].creator != c by {
                    if j < i {
                        assert(tt[j] == s.take(a0)[j]);
                    } else {
                        assert(tt[j] == s.take(a0)[j + 1]);
                    }
                }
                lemma_last_of_is(tt, c, ps);
            } else {
                assert forall|j: int| 0 <= j < tt.len() implies tt[j].creator != c by {
                    if j < i {
                        assert(tt[j] == s.take(a0)[j]);
                    } else {
                        assert(tt[j] == s.take(a0)[j + 1]);
                    }
                }
                lemma_last_of_none(tt, c);
            }
        }
    }
    assert forall|a: int| 0 <= a < t.len() implies ({
        let q = #[trigger] parent_index(t, a, t[a].self_parent);
        q >= 0 ==> t[q].creator == t[a].creator && t[q].id + 1 == t[a].id
    }) by {
        let a0 = if a < i { a } else { a + 1 };
        let sp = t[a].self_parent;
        let q = parent_index(t, a, sp);
        if q >= 0 {
            lemma_first_index_of(ht.take(a), sp);
            let q0 = if q < i { q } else { q + 1 };
            assert(ht.take(a)[q] == ht[q]);
            assert(ht[q] == hs[q0]);
            lemma_first_index_of(hs.take(a0), sp);
            assert(hs.take(a0)[q0] == sp);
            let r = first_index_of(hs.take(a0), sp);
            assert(hs.take(a0)[r] == hs[r]);
            assert(r == q0);
            assert(parent_index(s, a0, s[a0].self_parent) == q0);
        }
    }
}

/// Taking out an event leaves every event in no earlier round than its
/// self-parent.
pub proof fn lemma_remove_keeps_rounds(s: Seq<Event>, i: int)
    requires
        distinct(event_hashes(s)),
        rounds_monotone(s),
        0 <= i < s.len(),
    ensures
        rounds_monotone(s.remove(i)),
{
    let t = s.remove(i);
    let hs = event_hashes(s);
    let ht = event_hashes(t);
    assert forall|a: int| 0 <= a < t.len() implies ({
        let q = #[trigger] parent_index(t, a, t[a].self_parent);
        q >= 0 ==> t[q].round <= t[a].round
    }) by {
        let a0 = if a < i { a } else { a + 1 };
        let sp = t[a].self_parent;
        let q = parent_index(t, a, sp);
        if q >= 0 {
            lemma_first_index_of(ht.take(a), sp);
            let q0 = if q < i { q } else { q + 1 };
            assert(ht.take(a)[q] == ht[q]);
            assert(ht[q] == hs[q0]);
            lemma_first_index_of(hs.take(a0), sp);
            assert(hs.take(a0)[q0] == sp);
            let r = first_index_of(hs.take(a0), sp);
            assert(hs.take(a0)[r] == hs[r]);
            assert(r == q0);
            assert(parent_index(s, a0, s[a0].self_parent) == q0);
        }
    }
}

impl Events {
    /// Whether the event at place `i` is forgotten with `hashes`.
    pub fn is_doomed(&self, hashes: &Vec<EventHash>, i: usize) -> (r: bool)
        requires
            i < self.store@.len(),
        ensures
            r == doomed(self.store@, hashes@, i as int),
    {
        let creator = self.store[i].creator;
        let mut j: usize = i;
        while j < self.store.len()
            invariant
                i <= j,
                i < self.store@.len(),
                creator == self.store@[i as int].creator,
                forall|k: int| i <= k < j ==> !dooms(self.store@, hashes@, i as int, k),
            decreases self.store@.len() - j,
        {
            if self.store[j].creator == creator && crate::index::find_u64(
                hashes,
                self.store[j].hash,
            ).is_some() {
                assert(dooms(self.store@, hashes@, i as int, j as int));
                return true;
            }
            j += 1;
        }
        false
    }

    /// Forgets the events with the hashes `hashes` and, of each creator,
    /// what stands before its last listed event, so that the ids of what
    /// stays have no gaps. What is forgotten also leaves the undecided.
    pub fn purge(&mut self, hashes: Vec<EventHash>)
        requires
            old(self).wf(),
        ensures
            final(self).wf(),
            final(self).store@ == survivors(old(self).store@, hashes@),
            final(self).undecided@ == present_only(
                old(self).undecided@,
                event_hashes(final(self).store@),
            ),
            rounds_monotone(old(self).store@) ==> rounds_monotone(final(self).store@),
    {
        let ghost pre = self.store@;
        let ghost m: int = 0;
        let mut i: usize = 0;
        proof {
            assert(pre.skip(0) =~= pre);
            assert(kept_prefix(pre, hashes@, 0) + pre =~= pre);
        }
        while i < self.store.len()
            invariant
                0 <= m <= pre.len(),
                self.store@ == kept_prefix(pre, hashes@, m) + pre.skip(m),
                i == kept_prefix(pre, hashes@, m).len(),
                self.undecided == old(self).undecided,
                distinct(event_hashes(self.store@)),
                gapless(self.store@),
                self_parents_consistent(self.store@),
                rounds_monotone(pre) ==> rounds_monotone(self.store@),
            decreases pre.len() - m,
        {
            let ghost cur = self.store@;
            let ghost kept = kept_prefix(pre, hashes@, m);
            let gone = self.is_doomed(&hashes, i);
            proof {
                assert(cur[i as int] == pre[m]);
                if doomed(cur, hashes@, i as int) {
                    let j = choose|j: int| #[trigger] dooms(cur, hashes@, i as int, j);
                    assert(cur[j] == pre[j - i + m]);
                    assert(dooms(pre, hashes@, m, j - i + m));
                }
                if doomed(pre, hashes@, m) {
                    let j = choose|j: int| #[trigger] dooms(pre, hashes@, m, j);
                    assert(cur[j - m + i] == pre[j]);
                    assert(dooms(cur, hashes@, i as int, j - m + i));
                }
                assert(pre.skip(m + 1) =~= pre.skip(m).skip(1));
            }
            if gone {
                proof {
                    lemma_kept_prefix_members(pre, hashes@, m);
                    let j = choose|j: int| #[trigger] dooms(pre, hashes@, m, j);
                    assert forall|a: int| 0 <= a < i implies cur[a].creator
                        != cur[i as int].creator by {
                        assert(cur[a] == kept[a]);
                        let b = choose|b: int|
                            0 <= b < m && !doomed(pre, hashes@, b) && #[trigger] pre[b]
                                == #[trigger] kept[a];
                        if pre[b].creator == pre[m].creator {
                            assert(dooms(pre, hashes@, b, j));
                        }
                    }
                    lemma_remove_first_keeps_wf(cur, i as int);
                    if rounds_monotone(cur) {
                        lemma_remove_keeps_rounds(cur, i as int);
                    }
                }
                self.store.remove(i);
                proof {
                    assert(self.store@ =~= kept_prefix(pre, hashes@, m + 1) + pre.skip(m + 1));
                    m = m + 1;
                }
            } else {
                proof {
                    assert(self.store@ =~= kept_prefix(pre, hashes@, m + 1) + pre.skip(m + 1));
                    m = m + 1;
                }
                i += 1;
            }
        }
        proof {
            assert(m == pre.len());
            assert(self.store@ =~= kept_prefix(pre, hashes@, m));
        }
        // The places have changed: the index is made anew.
        let ghost hs = event_hashes(self.store@);
        let mut index: HashMap<EventHash, usize> = HashMap::new();
        let mut c: usize = 0;
        proof {
            assert forall|h: EventHash| first_index_of(hs.take(0), h) < 0 by {
                lemma_first_index_of(hs.take(0), h);
            }
        }
        while c < self.store.len()
            invariant
                c <= self.store@.len(),
                hs == event_hashes(self.store@),
                distinct(hs),
                forall|h: EventHash|
                    (#[trigger] index@.contains_key(h) <==> first_index_of(hs.take(c as int), h)
                        >= 0) && (index@.contains_key(h) ==> index@[h] as int == first_index_of(
                        hs.take(c as int),
                        h,
                    )),
            decreases self.store@.len() - c,
        {
            let ghost before = index@;
            let hash = self.store[c].hash;
            index.insert(hash, c);
            proof {
                assert(hs.take(c + 1) =~= hs.take(c as int).push(hs[c as int]));
                assert(hs[c as int] == hash);
                assert forall|h: EventHash|
                    (#[trigger] index@.contains_key(h) <==> first_index_of(hs.take(c + 1), h)
                        >= 0) && (index@.contains_key(h) ==> index@[h] as int == first_index_of(
                    hs.take(c + 1),
                    h,
                )) by {
                    crate::index::lemma_first_index_push(hs.take(c as int), hash, h);
                    assert(before.contains_key(h) <==> first_index_of(hs.take(c as int), h) >= 0);
                    if h == hash {
                        lemma_first_index_of(hs.take(c as int), h);
                        if first_index_of(hs.take(c as int), h) >= 0 {
                            let k = first_index_of(hs.take(c as int), h);
                            assert(hs.take(c as int)[k] == hs[k]);
                        }
                    }
                }
            }
            c += 1;
        }
        proof {
            assert(hs.take(self.store@.len() as int) =~= hs);
        }
        self.by_hash = index;
        let mut rest: Vec<EventHash> = Vec::new();
        let mut t: usize = 0;
        proof {
            assert(self.undecided@.take(0) =~= Seq::<EventHash>::empty());
        }
        while t < self.undecided.len()
            invariant
                self.indexed(),
                t <= self.undecided@.len(),
                hs == event_hashes(self.store@),
                self.undecided == old(self).undecided,
                rest@ == present_only(self.undecided@.take(t as int), hs),
            decreases self.undecided@.len() - t,
        {
            proof {
                assert(self.undecided@.take(t + 1).drop_last() =~= self.undecided@.take(t as int));
                assert(self.undecided@.take(t + 1).last() == self.undecided@[t as int]);
            }
            let h = self.undecided[t];
            if self.find(h).is_some() {
                rest.push(h);
            }
            t += 1;
        }
        proof {
            assert(self.undecided@.take(self.undecided@.len() as int) =~= self.undecided@);
        }
        self.undecided = rest;
        // What an event reaches goes by the events that are left: the memo
        // is made anew.
        let mut rows: Vec<Vec<bool>> = Vec::new();
        let mut i: usize = 0;
        while i < self.store.len()
            invariant
                self.indexed(),
                i <= self.store@.len(),
                rows@.len() == i,
                forall|j: int| 0 <= j < i ==> (#[trigger] rows@[j])@.len() == j,
                forall|j: int, k: int|
                    0 <= k < j < i ==> #[trigger] rows@[j]@[k] == crate::ancestry::reached(
                        self.store@,
                        j,
                        self.store@[j].self_parent,
                        self.store@[j].other_parent,
                        k,
                    ),
            decreases self.store@.len() - i,
        {
            let row = self.sweep_marks(i, self.store[i].self_parent, self.store[i].other_parent);
            rows.push(row);
            i += 1;
        }
        self.reach = rows;
    }
}

/// What is kept of the first `n` events holds no listed hash.
proof fn lemma_kept_unlisted(s: Seq<Event>, hashes: Seq<EventHash>, n: int, h: EventHash)
    requires
        0 <= n <= s.len(),
        listed(hashes, h),
    ensures
        forall|a: int|
            0 <= a < kept_prefix(s, hashes, n).len() ==> (#[trigger] kept_prefix(
                s,
                hashes,
                n,
            )[a]).hash != h,
{
    lemma_kept_prefix_members(s, hashes, n);
    let k = kept_prefix(s, hashes, n);
    assert forall|a: int| 0 <= a < k.len() implies (#[trigger] k[a]).hash != h by {
        let b = choose|b: int|
            0 <= b < n && !doomed(s, hashes, b) && #[trigger] s[b] == #[trigger] k[a];
        if s[b].hash == h {
            assert(dooms(s, hashes, b, b));
        }
    }
}

/// The store that a purge leaves holds no event with a listed hash.
pub proof fn lemma_survivors_unlisted(s: Seq<Event>, hashes: Seq<EventHash>, h: EventHash)
    requires
        listed(hashes, h),
    ensures
        first_index_of(event_hashes(survivors(s, hashes)), h) < 0,
{
    let k = survivors(s, hashes);
    lemma_kept_unlisted(s, hashes, s.len() as int, h);
    assert forall|a: int| 0 <= a < event_hashes(k).len() implies event_hashes(k)[a] != h by {
        assert(k[a].hash != h);
    }
    lemma_first_index_none(event_hashes(k), h);
}

} // verus!
