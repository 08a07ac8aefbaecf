//! Bookkeeping and decisions of the speed-camera ticketing service:
//! which messages may open a connection, registering a dispatcher for its
//! roads, handing it the tickets held back for those roads, and the
//! heartbeat a client may ask for.

use vstd::prelude::*;
use vstd::string::StringExecFns;
use std::collections::HashMap;
use crate::wire::{ClientMsg, ErrorMsg, MilePos, Road, Speed, Ticket};

verus! {

broadcast use vstd::std_specs::hash::group_hash_axioms;

/// How many times `r` occurs in `s`.
pub open spec fn count_in(s: Seq<Road>, r: Road) -> nat
    decreases s.len(),
{
    if s.len() == 0 {
        0
    } else {
        count_in(s.drop_last(), r) + if s.last() == r {
            1nat
        } else {
            0
        }
    }
}

/// A road occurs in a sequence exactly when its count there is positive.
proof fn lemma_count_in_contains(s: Seq<Road>, r: Road)
    ensures
        (count_in(s, r) > 0) == s.contains(r),
    decreases s.len(),
{
    if s.len() > 0 {
        lemma_count_in_contains(s.drop_last(), r);
        if s.drop_last().contains(r) {
            let k = choose|k: int| 0 <= k < s.drop_last().len() && s.drop_last()[k] == r;
            assert(s[k] == r);
        }
        if s.contains(r) && s.last() != r {
            let k = choose|k: int| 0 <= k < s.len() && s[k] == r;
            assert(s.drop_last()[k] == r);
        }
    }
}

/// Length of the list held at `r`, or 0 when there is none.
pub open spec fn list_len<D>(m: Map<Road, Vec<D>>, r: Road) -> nat {
    if m.contains_key(r) {
        m[r]@.len()
    } else {
        0
    }
}

/// `new` is `old` with one clone of `d` appended at each occurrence of a
/// road in `roads`: every list keeps its old entries, grows by the number of
/// times its road occurs, and the new entries are clones of `d`.
pub open spec fn registered<D: Clone>(
    old: Map<Road, Vec<D>>,
    new: Map<Road, Vec<D>>,
    roads: Seq<Road>,
    d: D,
) -> bool {
    &&& forall|r: Road| #[trigger] new.contains_key(r) <==> old.contains_key(r) || roads.contains(r)
    &&& forall|r: Road|
        #[trigger] new.contains_key(r) ==> new[r]@.len() == list_len(old, r) + count_in(roads, r)
    &&& forall|r: Road, i: int|
        old.contains_key(r) && 0 <= i < old[r]@.len() ==> #[trigger] new[r]@[i] == old[r]@[i]
    &&& forall|r: Road, i: int|
        new.contains_key(r) && list_len(old, r) <= i < new[r]@.len() ==> cloned(
            d,
            #[trigger] new[r]@[i],
        )
}

/// Adds a clone of `dispatcher` to the list of each road in `roads`, once
/// per occurrence, creating lists for roads that had none.
pub fn register_dispatcher<D: Clone>(
    dispatchers: &mut HashMap<Road, Vec<D>>,
    roads: &Vec<Road>,
    dispatcher: &D,
)
    ensures
        registered(old(dispatchers)@, final(dispatchers)@, roads@, *dispatcher),
        forall|i: int|
            0 <= i < roads@.len() ==> {
                let r = #[trigger] roads@[i];
                &&& final(dispatchers)@.contains_key(r)
                &&& final(dispatchers)@[r]@.len() == list_len(old(dispatchers)@, r) + count_in(
                    roads@,
                    r,
                )
                &&& cloned(*dispatcher, final(dispatchers)@[r]@.last())
            },
{
    let ghost start = dispatchers@;
    let mut idx: usize = 0;
    while idx < roads.len()
        invariant
            idx <= roads@.len(),
            start == old(dispatchers)@,
            registered(start, dispatchers@, roads@.take(idx as int), *dispatcher),
        decreases roads@.len() - idx,
    {
        let road = roads[idx];
        let ghost before = dispatchers@;
        let ghost prefix = roads@.take(idx as int);
        let ghost next = roads@.take(idx + 1);
        assert(next =~= prefix.push(road));
        let copy = dispatcher.clone();
        match dispatchers.remove(&road) {
            Some(mut list) => {
                list.push(copy);
                dispatchers.insert(road, list);
            },
            None => {
                let mut list: Vec<D> = Vec::new();
                list.push(copy);
                dispatchers.insert(road, list);
            },
        }
        proof {
            assert forall|r: Road| #[trigger] dispatchers@.contains_key(r) <==> start.contains_key(r)
                || next.contains(r) by {
                if r == road {
                    assert(next[idx as int] == road);
                } else if prefix.contains(r) {
                    let k = choose|k: int| 0 <= k < prefix.len() && prefix[k] == r;
                    assert(next[k] == r);
                } else if next.contains(r) {
                    let k = choose|k: int| 0 <= k < next.len() && next[k] == r;
                    assert(k < prefix.len());
                    assert(prefix[k] == r);
                }
            }
            assert forall|r: Road| #[trigger] dispatchers@.contains_key(r) implies dispatchers@[r]@.len()
                == list_len(start, r) + count_in(next, r) by {
                assert(next.drop_last() =~= prefix);
                if r == road && !before.contains_key(r) {
                    lemma_count_in_contains(prefix, r);
                }
            }
            assert forall|r: Road, i: int|
                start.contains_key(r) && 0 <= i < start[r]@.len() implies #[trigger] dispatchers@[r]@[i]
                == start[r]@[i] by {
                assert(before.contains_key(r));
                assert(before[r]@[i] == start[r]@[i]);
            }
            assert forall|r: Road, i: int|
                dispatchers@.contains_key(r) && list_len(start, r) <= i < dispatchers@[r]@.len()
                implies cloned(*dispatcher, #[trigger] dispatchers@[r]@[i]) by {
                assert(next.drop_last() =~= prefix);
                if r != road || i < dispatchers@[r]@.len() - 1 {
                    assert(before.contains_key(r));
                    assert(dispatchers@[r]@[i] == before[r]@[i]);
                }
            }
        }
        idx = idx + 1;
    }
    assert(roads@.take(roads@.len() as int) =~= roads@);
    proof {
        lemma_registered_every_road(start, dispatchers@, roads@, *dispatcher);
    }
}

/// Every road the dispatcher names ends up with it: its list holds as many
/// more entries as the road occurs in `roads`, the last being a clone of
/// the dispatcher.
pub proof fn lemma_registered_every_road<D: Clone>(
    old: Map<Road, Vec<D>>,
    new: Map<Road, Vec<D>>,
    roads: Seq<Road>,
    d: D,
)
    requires
        registered(old, new, roads, d),
    ensures
        forall|i: int|
            0 <= i < roads.len() ==> {
                let r = #[trigger] roads[i];
                &&& new.contains_key(r)
                &&& new[r]@.len() == list_len(old, r) + count_in(roads, r)
                &&& cloned(d, new[r]@.last())
            },
{
    assert forall|i: int| 0 <= i < roads.len() implies {
        let r = #[trigger] roads[i];
        &&& new.contains_key(r)
        &&& new[r]@.len() == list_len(old, r) + count_in(roads, r)
        &&& cloned(d, new[r]@.last())
    } by {
        let r = roads[i];
        assert(roads.contains(r));
        assert(new.contains_key(r));
        lemma_count_in_contains(roads, r);
        let k = new[r]@.len() - 1;
        assert(cloned(d, new[r]@[k]));
    }
}

/// The tickets held back for the `i`-th road of `roads`: its whole list
/// the first time the road occurs, nothing at a repeat.
pub open spec fn held_for(m: Map<Road, Vec<Ticket>>, roads: Seq<Road>, i: int) -> Seq<Ticket> {
    if m.contains_key(roads[i]) && !roads.take(i).contains(roads[i]) {
        m[roads[i]]@
    } else {
        Seq::empty()
    }
}

/// All tickets held back for `roads`, road by road in the order the roads
/// are given, each road's list in its stored order.
pub open spec fn held_for_roads(m: Map<Road, Vec<Ticket>>, roads: Seq<Road>) -> Seq<Ticket> {
    Seq::new(roads.len(), |i: int| held_for(m, roads, i)).flatten()
}

/// Takes out all tickets held back for `roads`, in the order the roads are
/// given; their lists are removed from `pending`.
pub fn take_pending_tickets(pending: &mut HashMap<Road, Vec<Ticket>>, roads: &Vec<Road>) -> (r: Vec<
    Ticket,
>)
    ensures
        final(pending)@ == old(pending)@.remove_keys(roads@.to_set()),
        r@ == held_for_roads(old(pending)@, roads@),
{
    let ghost start = pending@;
    let mut unsent: Vec<Ticket> = Vec::new();
    let mut idx: usize = 0;
    while idx < roads.len()
        invariant
            idx <= roads@.len(),
            start == old(pending)@,
            pending@ == start.remove_keys(roads@.take(idx as int).to_set()),
            unsent@ == Seq::new(idx as nat, |i: int| held_for(start, roads@, i)).flatten(),
        decreases roads@.len() - idx,
    {
        let road = roads[idx];
        let ghost before = pending@;
        let ghost prefix = roads@.take(idx as int);
        let ghost next = roads@.take(idx + 1);
        let ghost shares = Seq::new(idx as nat, |i: int| held_for(start, roads@, i));
        assert(next =~= prefix.push(road));
        assert(prefix == roads@.take(idx as int));
        assert(before.contains_key(road) == (start.contains_key(road) && !prefix.contains(road))) by {
            assert(prefix.to_set().contains(road) == prefix.contains(road));
        }
        if let Some(mut vals) = pending.remove(&road) {
            unsent.append(&mut vals);
        }
        proof {
            assert(Seq::new((idx + 1) as nat, |i: int| held_for(start, roads@, i)) =~= shares.push(
                held_for(start, roads@, idx as int),
            ));
            shares.lemma_flatten_push(held_for(start, roads@, idx as int));
            assert(pending@ =~= start.remove_keys(next.to_set())) by {
                assert forall|k: Road| next.to_set().contains(k) == (prefix.to_set().contains(k) || k
                    == road) by {
                    assert(next.to_set().contains(k) == next.contains(k));
                    assert(prefix.to_set().contains(k) == prefix.contains(k));
                    if next.contains(k) && k != road {
                        let j = choose|j: int| 0 <= j < next.len() && next[j] == k;
                        assert(prefix[j] == k);
                    }
                    if prefix.contains(k) {
                        let j = choose|j: int| 0 <= j < prefix.len() && prefix[j] == k;
                        assert(next[j] == k);
                    }
                    if k == road {
                        assert(next[idx as int] == k);
                    }
                }
            }
        }
        idx = idx + 1;
    }
    assert(roads@.take(roads@.len() as int) =~= roads@);
    unsent
}

/// How a connection opens, decided by the first message the client sends.
pub enum Introduction {
    /// A camera at `mile` on `road`, where the limit is `limit`.
    Camera { road: Road, mile: MilePos, limit: Speed },
    /// A dispatcher for `roads`.
    Dispatcher { roads: Vec<Road> },
    /// Anything else: answer with this error.
    Rejected(ErrorMsg),
}

/// Only `IAmCamera` and `IAmDispatcher` may open a connection; any other
/// first message is answered with the error "expected introduction".
pub fn introduction(msg: ClientMsg) -> (r: Introduction)
    ensures
        match msg {
            ClientMsg::IAmCamera { road, mile, limit } => r == (Introduction::Camera {
                road,
                mile,
                limit,
            }),
            ClientMsg::IAmDispatcher { roads } => r matches Introduction::Dispatcher { roads: rs }
                && rs@ == roads@,
            _ => r matches Introduction::Rejected(e) && e.msg@ == "expected introduction"@,
        },
{
    match msg {
        ClientMsg::IAmCamera { road, mile, limit } => Introduction::Camera { road, mile, limit },
        ClientMsg::IAmDispatcher { roads } => Introduction::Dispatcher { roads },
        _ => Introduction::Rejected(ErrorMsg { msg: String::from_str("expected introduction") }),
    }
}

/// An event on a dispatcher connection.
pub enum ControlFlow {
    /// A ticket to send.
    Ticket(Ticket),
    /// A message from the client.
    Msg(ClientMsg),
    /// Something went wrong.
    Error(String),
    /// The client went away.
    Disconnect,
    /// Time to send a heartbeat.
    HeartBeat,
}

/// Where a connection's heartbeat stands.
pub enum HeartbeatState {
    /// Waiting to learn the interval.
    Dormant,
    /// Beating at the interval learnt.
    Beating,
    /// The interval will never come.
    Dead,
}

/// What the heartbeat was waiting for turned out to be.
pub enum HeartbeatEvent {
    /// The interval arrived and the first tick passed.
    Started,
    /// The interval's sender went away, for the reason given.
    Canceled(String),
    /// Another tick passed.
    Ticked,
}

/// The event a heartbeat state can wait for: a dormant heartbeat learns its
/// interval or loses it, a beating one ticks, a dead one waits for nothing.
pub open spec fn heartbeat_awaits(state: HeartbeatState, event: HeartbeatEvent) -> bool {
    match state {
        HeartbeatState::Dormant => !(event is Ticked),
        HeartbeatState::Beating => event is Ticked,
        HeartbeatState::Dead => true,
    }
}

/// One step of the heartbeat: what it reports and where it goes. Once it
/// starts it beats for good; once its interval is lost it reports an error
/// at every step and stays dead.
pub fn heartbeat_step(state: HeartbeatState, event: HeartbeatEvent) -> (r: (
    ControlFlow,
    HeartbeatState,
))
    requires
        heartbeat_awaits(state, event),
    ensures
        match state {
            HeartbeatState::Dormant => match event {
                HeartbeatEvent::Canceled(reason) => r.0 matches ControlFlow::Error(m) && m@
                    == "heartbeat error: "@ + reason@ && r.1 is Dead,
                _ => r.0 is HeartBeat && r.1 is Beating,
            },
            HeartbeatState::Beating => r.0 is HeartBeat && r.1 is Beating,
            HeartbeatState::Dead => r.0 matches ControlFlow::Error(m) && m@ == "heartbeat is dead"@
                && r.1 is Dead,
        },
{
    match state {
        HeartbeatState::Dormant => match event {
            HeartbeatEvent::Canceled(reason) => (
                ControlFlow::Error(String::from_str("heartbeat error: ").concat(reason.as_str())),
                HeartbeatState::Dead,
            ),
            _ => (ControlFlow::HeartBeat, HeartbeatState::Beating),
        },
        HeartbeatState::Beating => (ControlFlow::HeartBeat, HeartbeatState::Beating),
        HeartbeatState::Dead => (
            ControlFlow::Error(String::from_str("heartbeat is dead")),
            HeartbeatState::Dead,
        ),
    }
}

/// Once the tickets held back for some roads are taken, taking them again
/// for the same roads finds none.
pub proof fn lemma_take_pending_twice(m: Map<Road, Vec<Ticket>>, roads: Seq<Road>)
    ensures
        held_for_roads(m.remove_keys(roads.to_set()), roads) == Seq::<Ticket>::empty(),
{
    let rest = m.remove_keys(roads.to_set());
    let shares = Seq::new(roads.len(), |i: int| held_for(rest, roads, i));
    assert forall|i: int| 0 <= i < roads.len() implies #[trigger] shares[i] == Seq::<Ticket>::empty() by {
        assert(roads.to_set().contains(roads[i]));
        assert(!rest.contains_key(roads[i]));
    }
    lemma_flatten_empties(shares);
}

/// Flattening a sequence of empty sequences gives the empty sequence.
proof fn lemma_flatten_empties(s: Seq<Seq<Ticket>>)
    requires
        forall|i: int| 0 <= i < s.len() ==> #[trigger] s[i] == Seq::<Ticket>::empty(),
    ensures
        s.flatten() == Seq::<Ticket>::empty(),
    decreases s.len(),
{
    if s.len() > 0 {
        assert(s.first() == s[0]);
        lemma_flatten_empties(s.drop_first());
        assert(s.first() + s.drop_first().flatten() =~= Seq::<Ticket>::empty());
    }
}

/// Number of tickets held back for `roads`: the length of each road's
/// list, counted at the road's first occurrence.
pub open spec fn total_held(m: Map<Road, Vec<Ticket>>, roads: Seq<Road>) -> nat
    decreases roads.len(),
{
    if roads.len() == 0 {
        0
    } else {
        total_held(m, roads.drop_last()) + if m.contains_key(roads.last())
            && !roads.drop_last().contains(roads.last()) {
            m[roads.last()]@.len()
        } else {
            0
        }
    }
}

/// Flattening splits around any element.
proof fn lemma_flatten_at(s: Seq<Seq<Ticket>>, i: int)
    requires
        0 <= i < s.len(),
    ensures
        s.flatten() == s.take(i).flatten() + s[i] + s.skip(i + 1).flatten(),
    decreases i,
{
    if i == 0 {
        assert(s.take(0) =~= Seq::<Seq<Ticket>>::empty());
        assert(s.skip(1) =~= s.drop_first());
        assert(s.flatten() =~= s.take(0).flatten() + s[0] + s.skip(1).flatten());
    } else {
        let t = s.drop_first();
        lemma_flatten_at(t, i - 1);
        assert(t.take(i - 1) =~= s.take(i).drop_first());
        assert(t.skip(i) =~= s.skip(i + 1));
        assert(s.take(i).first() == s[0]);
        assert(s.flatten() =~= s.take(i).flatten() + s[i] + s.skip(i + 1).flatten());
    }
}

/// Every element of a flattening comes from one of the flattened sequences.
proof fn lemma_flatten_member(s: Seq<Seq<Ticket>>, j: int)
    requires
        0 <= j < s.flatten().len(),
    ensures
        exists|i: int| 0 <= i < s.len() && #[trigger] s[i].contains(s.flatten()[j]),
    decreases s.len(),
{
    if s.len() > 0 {
        let f = s.first();
        if j < f.len() {
            assert(s[0][j] == s.flatten()[j]);
            assert(s[0].contains(s.flatten()[j]));
        } else {
            let t = s.drop_first();
            lemma_flatten_member(t, j - f.len());
            let i = choose|i: int| 0 <= i < t.len() && #[trigger] t[i].contains(t.flatten()[j - f.len()]);
            assert(s[i + 1] == t[i]);
            assert(s[i + 1].contains(s.flatten()[j]));
        }
    }
}

/// A road that occurs in a sequence has a first occurrence.
proof fn lemma_first_occurrence(roads: Seq<Road>, r: Road)
    requires
        roads.contains(r),
    ensures
        exists|i: int| 0 <= i < roads.len() && roads[i] == r && !#[trigger] roads.take(i).contains(r),
    decreases roads.len(),
{
    let t = roads.drop_last();
    if t.contains(r) {
        lemma_first_occurrence(t, r);
        let i = choose|i: int| 0 <= i < t.len() && t[i] == r && !#[trigger] t.take(i).contains(r);
        assert(t.take(i) =~= roads.take(i));
        assert(roads[i] == r);
    } else {
        let i = roads.len() - 1;
        assert(roads.take(i) =~= t);
        if roads[i] != r {
            let k = choose|k: int| 0 <= k < roads.len() && roads[k] == r;
            assert(t[k] == r);
        }
    }
}

/// Nothing held back for a road is lost: the whole list of every road in
/// `roads` appears, in its stored order, in the tickets handed out.
pub proof fn lemma_pending_kept_whole(m: Map<Road, Vec<Ticket>>, roads: Seq<Road>, r: Road)
    requires
        roads.contains(r),
        m.contains_key(r),
    ensures
        exists|k: int|
            0 <= k && k + m[r]@.len() <= held_for_roads(m, roads).len() && #[trigger] held_for_roads(
                m,
                roads,
            ).subrange(k, k + m[r]@.len()) == m[r]@,
{
    lemma_first_occurrence(roads, r);
    let i = choose|i: int| 0 <= i < roads.len() && roads[i] == r && !#[trigger] roads.take(i).contains(r);
    let s = Seq::new(roads.len(), |j: int| held_for(m, roads, j));
    assert(s[i] == m[r]@);
    lemma_flatten_at(s, i);
    let k = s.take(i).flatten().len() as int;
    let out = held_for_roads(m, roads);
    assert(out.subrange(k, k + m[r]@.len()) =~= m[r]@);
}

/// Nothing is handed out that was not held back: every ticket handed out
/// is in the list of one of the roads.
pub proof fn lemma_pending_only_held(m: Map<Road, Vec<Ticket>>, roads: Seq<Road>, j: int)
    requires
        0 <= j < held_for_roads(m, roads).len(),
    ensures
        exists|i: int|
            0 <= i < roads.len() && m.contains_key(roads[i]) && #[trigger] m[roads[i]]@.contains(
                held_for_roads(m, roads)[j],
            ),
{
    let s = Seq::new(roads.len(), |k: int| held_for(m, roads, k));
    lemma_flatten_member(s, j);
    let i = choose|i: int| 0 <= i < s.len() && #[trigger] s[i].contains(s.flatten()[j]);
    assert(s[i].len() > 0);
    assert(m.contains_key(roads[i]));
    assert(m[roads[i]]@.contains(held_for_roads(m, roads)[j]));
}

/// As many tickets are handed out as were held back for the roads, each
/// road's list counted once.
pub proof fn lemma_pending_count(m: Map<Road, Vec<Ticket>>, roads: Seq<Road>)
    ensures
        held_for_roads(m, roads).len() == total_held(m, roads),
    decreases roads.len(),
{
    if roads.len() > 0 {
        let t = roads.drop_last();
        let n = roads.len() - 1;
        lemma_pending_count(m, t);
        let s = Seq::new(roads.len(), |j: int| held_for(m, roads, j));
        let st = Seq::new(t.len(), |j: int| held_for(m, t, j));
        assert forall|j: int| 0 <= j < t.len() implies #[trigger] s[j] == st[j] by {
            assert(roads.take(j) =~= t.take(j));
        }
        assert(s =~= st.push(s[n]));
        st.lemma_flatten_push(s[n]);
        assert(roads.take(n) =~= t);
    }
}

} // verus!
