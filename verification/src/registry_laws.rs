//! Properties of the player registry that span several operations.

use crate::server::{
    after_connect, after_connect_batch, after_disconnect_batch, after_frame, after_heartbeat,
    disconnect_actions, disconnect_batch_actions, missed_beats_limit, movement_actions,
    route_actions, ticked, timed_out, without_ids, ActionView, MessageView,
    PlayerView, ServerView,
};
use vstd::prelude::*;

verus! {

// ---------------------------------------------------------------- heartbeats

/// The counts after `n` heartbeat checks.
pub open spec fn ticks(m: Map<u64, i16>, n: nat) -> Map<u64, i16>
    decreases n,
{
    if n == 0 {
        m
    } else {
        ticked(ticks(m, (n - 1) as nat))
    }
}

/// Without heartbeats, a count grows by one at every check until it
/// reaches `i16::MAX`.
proof fn lemma_count_grows(m: Map<u64, i16>, id: u64, n: nat)
    requires
        m.contains_key(id),
        0 <= m[id],
        m[id] + n <= i16::MAX,
    ensures
        ticks(m, n).contains_key(id),
        ticks(m, n)[id] == m[id] + n,
    decreases n,
{
    if n > 0 {
        lemma_count_grows(m, id, (n - 1) as nat);
    }
}

/// A player whose count of missed heartbeats is zero (it has just
/// connected, or just sent a heartbeat) and that stays silent is not
/// reported by the first `missed_beats_limit()` heartbeat checks, and is
/// reported by every later check as long as its count does not wrap
/// around: three seconds of silence, at one check every 200 ms, disconnect
/// it. (The `j`-th check looks at the count after `j` earlier checks.)
pub proof fn law_silent_player_times_out(m: Map<u64, i16>, id: u64)
    requires
        m.contains_key(id),
        m[id] == 0,
    ensures
        forall|j: nat|
            j <= i16::MAX ==> ((#[trigger] timed_out(ticks(m, j))).contains(id) <==> j
                >= missed_beats_limit()),
{
    assert forall|j: nat| j <= i16::MAX implies ((#[trigger] timed_out(ticks(m, j))).contains(id)
        <==> j >= missed_beats_limit()) by {
        lemma_count_grows(m, id, j);
    }
}

/// A heartbeat from the endpoint of a player that still has a count keeps
/// it connected for the next `missed_beats_limit()` checks.
pub proof fn law_heartbeat_keeps_player(s: ServerView, endpoint: u64)
    requires
        s.endpoints.contains_key(endpoint),
        s.heartbeats.contains_key(s.endpoints[endpoint]),
    ensures
        after_heartbeat(s, endpoint).heartbeats[s.endpoints[endpoint]] == 0,
        forall|j: nat|
            j < missed_beats_limit() ==> !(#[trigger] timed_out(
                ticks(after_heartbeat(s, endpoint).heartbeats, j),
            )).contains(s.endpoints[endpoint]),
{
    law_silent_player_times_out(after_heartbeat(s, endpoint).heartbeats, s.endpoints[endpoint]);
}

/// A heartbeat check keeps the same players counted.
pub proof fn law_check_keeps_players(m: Map<u64, i16>)
    ensures
        ticked(m).dom() == m.dom(),
{
    assert(ticked(m).dom() =~= m.dom());
}

// ------------------------------------------------------ sequences of events

/// One event of the registry: a heartbeat check, a heartbeat from an
/// endpoint, the players joining in a frame, the players leaving in a
/// frame, or the end of a frame. Movements leave the registry as it is.
pub enum RegistryEvent {
    Check,
    Heartbeat(u64),
    Connect(Seq<PlayerView>),
    Disconnect(Seq<u64>),
    EndFrame,
}

pub open spec fn apply_event(s: ServerView, e: RegistryEvent) -> ServerView {
    match e {
        RegistryEvent::Check => ServerView { heartbeats: ticked(s.heartbeats), ..s },
        RegistryEvent::Heartbeat(endpoint) => after_heartbeat(s, endpoint),
        RegistryEvent::Connect(ps) => after_connect_batch(s, ps),
        RegistryEvent::Disconnect(ids) => after_disconnect_batch(s, ids),
        RegistryEvent::EndFrame => after_frame(s),
    }
}

/// The players an event reports as timed out.
pub open spec fn event_reports(s: ServerView, e: RegistryEvent) -> Set<u64> {
    match e {
        RegistryEvent::Check => timed_out(s.heartbeats),
        _ => Set::empty(),
    }
}

pub open spec fn run_events(s: ServerView, es: Seq<RegistryEvent>) -> ServerView
    decreases es.len(),
{
    if es.len() == 0 {
        s
    } else {
        apply_event(run_events(s, es.drop_last()), es.last())
    }
}

/// Whether the event brings in a player with this id.
pub open spec fn brings_in(e: RegistryEvent, id: u64) -> bool {
    match e {
        RegistryEvent::Connect(ps) => exists|k: int| 0 <= k < ps.len() && (#[trigger] ps[k]).id == id,
        _ => false,
    }
}

proof fn lemma_connect_counts(s: ServerView, ps: Seq<PlayerView>, id: u64)
    requires
        !s.heartbeats.contains_key(id),
        forall|k: int| 0 <= k < ps.len() ==> (#[trigger] ps[k]).id != id,
    ensures
        !after_connect_batch(s, ps).heartbeats.contains_key(id),
    decreases ps.len(),
{
    if ps.len() > 0 {
        assert forall|k: int| 0 <= k < ps.drop_last().len() implies (
        #[trigger] ps.drop_last()[k]).id != id by {
            assert(ps.drop_last()[k] == ps[k]);
        }
        lemma_connect_counts(s, ps.drop_last(), id);
        assert(ps.last() == ps[ps.len() - 1]);
    }
}

proof fn lemma_stays_uncounted(s: ServerView, es: Seq<RegistryEvent>, id: u64)
    requires
        !s.heartbeats.contains_key(id),
        forall|i: int| 0 <= i < es.len() ==> !brings_in(#[trigger] es[i], id),
    ensures
        !run_events(s, es).heartbeats.contains_key(id),
    decreases es.len(),
{
    if es.len() > 0 {
        assert forall|i: int| 0 <= i < es.drop_last().len() implies !brings_in(
            #[trigger] es.drop_last()[i],
            id,
        ) by {
            assert(es.drop_last()[i] == es[i]);
        }
        lemma_stays_uncounted(s, es.drop_last(), id);
        let before = run_events(s, es.drop_last());
        assert(!brings_in(es[es.len() - 1], id));
        match es.last() {
            RegistryEvent::Check => {
                law_check_keeps_players(before.heartbeats);
            },
            RegistryEvent::Connect(ps) => {
                lemma_connect_counts(before, ps, id);
            },
            _ => {},
        }
    }
}

/// A player without a count (one that has left) is never reported by a
/// later heartbeat check, whatever other events come in between, as long
/// as no player with its id joins again.
pub proof fn law_uncounted_player_never_reported(s: ServerView, es: Seq<RegistryEvent>, id: u64)
    requires
        !s.heartbeats.contains_key(id),
        forall|i: int| 0 <= i < es.len() ==> !brings_in(#[trigger] es[i], id),
    ensures
        forall|i: int|
            0 <= i < es.len() ==> !(#[trigger] event_reports(run_events(s, es.take(i)), es[i])).contains(
                id,
            ),
        !run_events(s, es).heartbeats.contains_key(id),
{
    lemma_stays_uncounted(s, es, id);
    assert forall|i: int| 0 <= i < es.len() implies !(#[trigger] event_reports(
        run_events(s, es.take(i)),
        es[i],
    )).contains(id) by {
        assert forall|j: int| 0 <= j < es.take(i).len() implies !brings_in(
            #[trigger] es.take(i)[j],
            id,
        ) by {
            assert(es.take(i)[j] == es[j]);
        }
        lemma_stays_uncounted(s, es.take(i), id);
    }
}

/// The number of heartbeat checks among the events.
pub open spec fn checks(es: Seq<RegistryEvent>) -> nat
    decreases es.len(),
{
    if es.len() == 0 {
        0
    } else {
        checks(es.drop_last()) + if es.last() is Check {
            1nat
        } else {
            0nat
        }
    }
}

/// Whether, in registry `s`, event `e` is a heartbeat credited to player `id`.
pub open spec fn credits(s: ServerView, e: RegistryEvent, id: u64) -> bool {
    match e {
        RegistryEvent::Heartbeat(endpoint) => s.endpoints.contains_key(endpoint)
            && s.endpoints[endpoint] == id,
        _ => false,
    }
}

/// Whether the event makes the player with this id leave.
pub open spec fn removes(e: RegistryEvent, id: u64) -> bool {
    match e {
        RegistryEvent::Disconnect(ids) => ids.contains(id),
        _ => false,
    }
}

/// The events leave player `id` silent and present: no heartbeat is
/// credited to it, it does not leave, and no player with its id joins.
pub open spec fn silent_run(s: ServerView, es: Seq<RegistryEvent>, id: u64) -> bool {
    forall|i: int|
        0 <= i < es.len() ==> {
            &&& !brings_in(#[trigger] es[i], id)
            &&& !removes(es[i], id)
            &&& !credits(run_events(s, es.take(i)), es[i], id)
        }
}

proof fn lemma_connect_keeps_count(s: ServerView, ps: Seq<PlayerView>, id: u64)
    requires
        s.heartbeats.contains_key(id),
        forall|k: int| 0 <= k < ps.len() ==> (#[trigger] ps[k]).id != id,
    ensures
        after_connect_batch(s, ps).heartbeats.contains_key(id),
        after_connect_batch(s, ps).heartbeats[id] == s.heartbeats[id],
    decreases ps.len(),
{
    if ps.len() > 0 {
        assert forall|k: int| 0 <= k < ps.drop_last().len() implies (
        #[trigger] ps.drop_last()[k]).id != id by {
            assert(ps.drop_last()[k] == ps[k]);
        }
        lemma_connect_keeps_count(s, ps.drop_last(), id);
        assert(ps.last() == ps[ps.len() - 1]);
    }
}

proof fn lemma_silent_prefix(s: ServerView, es: Seq<RegistryEvent>, id: u64, n: int)
    requires
        silent_run(s, es, id),
        0 <= n <= es.len(),
    ensures
        silent_run(s, es.take(n), id),
{
    assert forall|i: int| 0 <= i < es.take(n).len() implies {
        &&& !brings_in(#[trigger] es.take(n)[i], id)
        &&& !removes(es.take(n)[i], id)
        &&& !credits(run_events(s, es.take(n).take(i)), es.take(n)[i], id)
    } by {
        assert(es.take(n)[i] == es[i]);
        assert(es.take(n).take(i) =~= es.take(i));
    }
}

proof fn lemma_silent_count(s: ServerView, es: Seq<RegistryEvent>, id: u64)
    requires
        s.heartbeats.contains_key(id),
        s.heartbeats[id] == 0,
        silent_run(s, es, id),
        checks(es) <= i16::MAX,
    ensures
        run_events(s, es).heartbeats.contains_key(id),
        run_events(s, es).heartbeats[id] == checks(es),
    decreases es.len(),
{
    if es.len() > 0 {
        let n = es.len() - 1;
        lemma_silent_prefix(s, es, id, n);
        assert(es.take(n) =~= es.drop_last());
        lemma_silent_count(s, es.drop_last(), id);
        let t = run_events(s, es.drop_last());
        let e = es.last();
        assert(e == es[n]);
        assert(!brings_in(e, id) && !removes(e, id) && !credits(t, e, id));
        match e {
            RegistryEvent::Connect(ps) => {
                lemma_connect_keeps_count(t, ps, id);
            },
            RegistryEvent::Disconnect(ids) => {
                assert(!ids.to_set().contains(id));
            },
            _ => {},
        }
    }
}

/// A player whose count of missed heartbeats is zero (it has just
/// connected, or a heartbeat was just credited to it) and that then stays
/// silent and present, whatever other players do in between, has missed
/// as many heartbeats as checks have run; so the `j`-th check after that
/// reports it exactly when `missed_beats_limit()` checks ran before it,
/// up to the point where its count would wrap around.
pub proof fn law_silent_player_times_out_amid_events(
    s: ServerView,
    es: Seq<RegistryEvent>,
    id: u64,
)
    requires
        s.heartbeats.contains_key(id),
        s.heartbeats[id] == 0,
        silent_run(s, es, id),
    ensures
        checks(es) <= i16::MAX ==> run_events(s, es).heartbeats.contains_key(id)
            && run_events(s, es).heartbeats[id] == checks(es),
        forall|i: int|
            0 <= i < es.len() && es[i] is Check && checks(es.take(i)) <= i16::MAX ==> ((
            #[trigger] event_reports(run_events(s, es.take(i)), es[i])).contains(id) <==> checks(
                es.take(i),
            ) >= missed_beats_limit()),
{
    if checks(es) <= i16::MAX {
        lemma_silent_count(s, es, id);
    }
    assert forall|i: int|
        0 <= i < es.len() && es[i] is Check && checks(es.take(i)) <= i16::MAX implies ((
        #[trigger] event_reports(run_events(s, es.take(i)), es[i])).contains(id) <==> checks(
            es.take(i),
        ) >= missed_beats_limit()) by {
        lemma_silent_prefix(s, es, id, i);
        lemma_silent_count(s, es.take(i), id);
    }
}

// ------------------------------------------------------------- consistency

/// A frame boundary: no entity waits to be created or removed.
pub open spec fn settled(s: ServerView) -> bool {
    s.spawning.len() == 0 && s.despawning.len() == 0
}

/// Every player in `players` is named by its endpoint and has a count, and
/// every count belongs to one of them.
pub open spec fn consistent(hb: Map<u64, i16>, eps: Map<u64, u64>, players: Seq<PlayerView>) -> bool {
    &&& forall|k: int|
        0 <= k < players.len() ==> {
            &&& eps.contains_key((#[trigger] players[k]).endpoint)
            &&& eps[players[k].endpoint] == players[k].id
            &&& hb.contains_key(players[k].id)
        }
    &&& forall|id: u64|
        #[trigger] hb.contains_key(id) ==> exists|k: int| 0 <= k < players.len() && (#[trigger] players[k]).id == id
}

/// The registry at a frame boundary agrees with the players' entities.
pub open spec fn registry_consistent(s: ServerView) -> bool {
    settled(s) && consistent(s.heartbeats, s.endpoints, s.players)
}

/// Joining players whose endpoints differ from one another and from those
/// of the players present.
pub open spec fn distinct_endpoints(present: Seq<PlayerView>, joining: Seq<PlayerView>) -> bool {
    &&& forall|i: int, j: int|
        0 <= i < j < joining.len() ==> (#[trigger] joining[i]).endpoint != (#[trigger] joining[j]).endpoint
    &&& forall|i: int, k: int|
        0 <= i < joining.len() && 0 <= k < present.len() ==> (#[trigger] joining[i]).endpoint != (
        #[trigger] present[k]).endpoint
}

proof fn lemma_connect_consistent(s: ServerView, ps: Seq<PlayerView>)
    requires
        consistent(s.heartbeats, s.endpoints, s.players),
        distinct_endpoints(s.players, ps),
    ensures
        consistent(
            after_connect_batch(s, ps).heartbeats,
            after_connect_batch(s, ps).endpoints,
            s.players + ps,
        ),
        after_connect_batch(s, ps).players == s.players,
        after_connect_batch(s, ps).despawning == s.despawning,
        after_connect_batch(s, ps).spawning == s.spawning + ps,
    decreases ps.len(),
{
    if ps.len() == 0 {
        assert(s.players + ps =~= s.players);
        assert(s.spawning + ps =~= s.spawning);
    } else {
        let q = ps.drop_last();
        let p = ps.last();
        assert forall|i: int, j: int| 0 <= i < j < q.len() implies (#[trigger] q[i]).endpoint != (
        #[trigger] q[j]).endpoint by {
            assert(q[i] == ps[i] && q[j] == ps[j]);
        }
        assert forall|i: int, k: int| 0 <= i < q.len() && 0 <= k < s.players.len() implies (
        #[trigger] q[i]).endpoint != (#[trigger] s.players[k]).endpoint by {
            assert(q[i] == ps[i]);
        }
        lemma_connect_consistent(s, q);
        let t = after_connect_batch(s, q);
        let l = s.players + q;
        assert(s.players + ps =~= l.push(p));
        assert(s.spawning + ps =~= (s.spawning + q).push(p));
        assert(p == ps[ps.len() - 1]);
        let hb = t.heartbeats.insert(p.id, 0);
        let eps = t.endpoints.insert(p.endpoint, p.id);
        let l2 = l.push(p);
        assert forall|k: int| 0 <= k < l2.len() implies {
            &&& eps.contains_key((#[trigger] l2[k]).endpoint)
            &&& eps[l2[k].endpoint] == l2[k].id
            &&& hb.contains_key(l2[k].id)
        } by {
            if k < l.len() {
                assert(l2[k] == l[k]);
                if k < s.players.len() {
                    assert(l[k] == s.players[k]);
                    assert(ps[ps.len() - 1].endpoint != s.players[k].endpoint);
                } else {
                    assert(l[k] == ps[k - s.players.len()]);
                    assert(ps[k - s.players.len()].endpoint != ps[ps.len() - 1].endpoint);
                }
            }
        }
        assert forall|id: u64| #[trigger] hb.contains_key(id) implies exists|k: int|
            0 <= k < l2.len() && (#[trigger] l2[k]).id == id by {
            if id == p.id {
                assert(l2[l.len() as int].id == id);
            } else {
                let k = choose|k: int| 0 <= k < l.len() && (#[trigger] l[k]).id == id;
                assert(l2[k] == l[k]);
            }
        }
    }
}

proof fn lemma_without_nothing(players: Seq<PlayerView>)
    ensures
        without_ids(players, Seq::empty()) == players,
    decreases players.len(),
{
    if players.len() > 0 {
        lemma_without_nothing(players.drop_last());
        assert(players.drop_last().push(players.last()) =~= players);
    }
}

/// The players kept are exactly those of `players` whose id is not in `ids`.
proof fn lemma_without_ids_members(players: Seq<PlayerView>, ids: Seq<u64>)
    ensures
        forall|k: int|
            0 <= k < without_ids(players, ids).len() ==> !ids.contains(
                (#[trigger] without_ids(players, ids)[k]).id,
            ) && players.contains(without_ids(players, ids)[k]),
        forall|j: int|
            0 <= j < players.len() && !ids.contains((#[trigger] players[j]).id) ==> without_ids(
                players,
                ids,
            ).contains(players[j]),
    decreases players.len(),
{
    if players.len() > 0 {
        let d = players.drop_last();
        let last = players.last();
        lemma_without_ids_members(d, ids);
        let rest = without_ids(d, ids);
        let r = without_ids(players, ids);
        assert forall|k: int| 0 <= k < r.len() implies !ids.contains((#[trigger] r[k]).id)
            && players.contains(r[k]) by {
            if k < rest.len() {
                assert(r[k] == rest[k]);
                let j = choose|j: int| 0 <= j < d.len() && d[j] == rest[k];
                assert(players[j] == d[j]);
            } else {
                assert(r[k] == last);
                assert(players[players.len() - 1] == last);
            }
        }
        assert forall|j: int| 0 <= j < players.len() && !ids.contains((#[trigger] players[j]).id) implies r.contains(
            players[j],
        ) by {
            if j < d.len() {
                assert(players[j] == d[j]);
                assert(rest.contains(d[j]));
                let k = choose|k: int| 0 <= k < rest.len() && rest[k] == d[j];
                if !ids.contains(last.id) {
                    assert(r[k] == rest[k]);
                }
            } else {
                assert(players[j] == last);
                assert(r[rest.len() as int] == last);
            }
        }
    }
}

/// Players joining at a frame boundary, with endpoints that differ from one
/// another and from those of the players present, leave the registry
/// agreeing with the players' entities once the frame ends.
pub proof fn law_connect_keeps_registry_consistent(s: ServerView, ps: Seq<PlayerView>)
    requires
        registry_consistent(s),
        distinct_endpoints(s.players, ps),
    ensures
        registry_consistent(after_frame(after_connect_batch(s, ps))),
        after_frame(after_connect_batch(s, ps)).players == s.players + ps,
{
    lemma_connect_consistent(s, ps);
    lemma_without_nothing(s.players);
    assert(s.despawning =~= Seq::<u64>::empty());
    assert(s.spawning + ps =~= ps);
}

/// Players leaving at a frame boundary leave the registry agreeing with
/// the players' entities once the frame ends: the players whose ids left
/// are gone, with their counts.
pub proof fn law_disconnect_keeps_registry_consistent(s: ServerView, ids: Seq<u64>)
    requires
        registry_consistent(s),
    ensures
        registry_consistent(after_frame(after_disconnect_batch(s, ids))),
        after_frame(after_disconnect_batch(s, ids)).players == without_ids(s.players, ids),
{
    let t = after_frame(after_disconnect_batch(s, ids));
    assert(s.despawning + ids =~= ids);
    assert(s.spawning =~= Seq::<PlayerView>::empty());
    assert(t.players =~= without_ids(s.players, ids));
    lemma_without_ids_members(s.players, ids);
    let r = t.players;
    assert forall|k: int| 0 <= k < r.len() implies {
        &&& t.endpoints.contains_key((#[trigger] r[k]).endpoint)
        &&& t.endpoints[r[k].endpoint] == r[k].id
        &&& t.heartbeats.contains_key(r[k].id)
    } by {
        let j = choose|j: int| 0 <= j < s.players.len() && s.players[j] == r[k];
        assert(!ids.to_set().contains(r[k].id));
    }
    assert forall|id: u64| #[trigger] t.heartbeats.contains_key(id) implies exists|k: int|
        0 <= k < r.len() && (#[trigger] r[k]).id == id by {
        let j = choose|j: int| 0 <= j < s.players.len() && (#[trigger] s.players[j]).id == id;
        assert(!ids.contains(id));
        assert(r.contains(s.players[j]));
    }
}

/// Heartbeats and heartbeat checks keep the registry agreeing with the
/// players' entities.
pub proof fn law_heartbeats_keep_registry_consistent(s: ServerView, endpoint: u64)
    requires
        registry_consistent(s),
    ensures
        registry_consistent(after_heartbeat(s, endpoint)),
        registry_consistent(ServerView { heartbeats: ticked(s.heartbeats), ..s }),
{
    law_check_keeps_players(s.heartbeats);
    assert(after_heartbeat(s, endpoint).heartbeats.dom() =~= s.heartbeats.dom());
}

/// Every player joining in a frame gets a count of its own at zero, and
/// its endpoint names it, when the joining players' endpoints differ.
pub proof fn law_each_joiner_registered(s: ServerView, ps: Seq<PlayerView>, k: int)
    requires
        0 <= k < ps.len(),
        forall|i: int, j: int|
            0 <= i < j < ps.len() ==> (#[trigger] ps[i]).endpoint != (#[trigger] ps[j]).endpoint,
    ensures
        after_connect_batch(s, ps).heartbeats.contains_key(ps[k].id),
        after_connect_batch(s, ps).heartbeats[ps[k].id] == 0,
        after_connect_batch(s, ps).endpoints.contains_key(ps[k].endpoint),
        after_connect_batch(s, ps).endpoints[ps[k].endpoint] == ps[k].id,
    decreases ps.len(),
{
    let q = ps.drop_last();
    assert(ps.last() == ps[ps.len() - 1]);
    if k < ps.len() - 1 {
        assert forall|i: int, j: int| 0 <= i < j < q.len() implies (#[trigger] q[i]).endpoint != (
        #[trigger] q[j]).endpoint by {
            assert(q[i] == ps[i] && q[j] == ps[j]);
        }
        assert(q[k] == ps[k]);
        law_each_joiner_registered(s, q, k);
        assert(ps[k].endpoint != ps[ps.len() - 1].endpoint);
    }
}

// ------------------------------------------------------ joining and leaving

/// A player that joins at a frame boundary is registered: its count of
/// missed heartbeats is zero, its endpoint names it, a heartbeat from its
/// endpoint is credited to it, and at the end of the frame its entity is
/// the newest.
pub proof fn law_connected_player_is_registered(s: ServerView, p: PlayerView)
    requires
        settled(s),
    ensures
        after_connect_batch(s, seq![p]).heartbeats[p.id] == 0,
        after_connect_batch(s, seq![p]).endpoints[p.endpoint] == p.id,
        after_heartbeat(after_connect_batch(s, seq![p]), p.endpoint).heartbeats == after_connect_batch(
            s,
            seq![p],
        ).heartbeats,
        after_frame(after_connect_batch(s, seq![p])).players == s.players.push(p),
{
    assert(seq![p].drop_last() =~= Seq::<PlayerView>::empty());
    assert(after_connect_batch(s, seq![p].drop_last()) == s);
    assert(seq![p].last() == p);
    let t = after_connect_batch(s, seq![p]);
    assert(t == after_connect(s, p));
    assert(t.heartbeats.insert(p.id, 0) =~= t.heartbeats);
    lemma_without_nothing(s.players);
    assert(s.despawning =~= Seq::<u64>::empty());
    assert(s.spawning.push(p) =~= seq![p]);
    assert(s.players + seq![p] =~= s.players.push(p));
}

/// A player that leaves at a frame boundary loses its count at once, so no
/// later heartbeat check reports it, and at the end of the frame no entity
/// with its id is left; the endpoint it connected from still names it.
pub proof fn law_departed_player_is_forgotten(s: ServerView, ids: Seq<u64>, id: u64)
    requires
        settled(s),
        ids.contains(id),
    ensures
        !after_disconnect_batch(s, ids).heartbeats.contains_key(id),
        forall|k: int|
            0 <= k < after_frame(after_disconnect_batch(s, ids)).players.len() ==> (
            #[trigger] after_frame(after_disconnect_batch(s, ids)).players[k]).id != id,
        after_disconnect_batch(s, ids).endpoints == s.endpoints,
{
    let t = after_frame(after_disconnect_batch(s, ids));
    assert(s.despawning + ids =~= ids);
    assert(s.spawning =~= Seq::<PlayerView>::empty());
    assert(t.players =~= without_ids(s.players, ids));
    lemma_without_ids_members(s.players, ids);
    assert(ids.to_set().contains(id));
}

/// Joining and then leaving: the player's count and entity are gone again,
/// while its endpoint still names it.
pub proof fn law_join_then_leave(s: ServerView, p: PlayerView)
    requires
        settled(s),
    ensures
        ({
            let t = after_frame(
                after_disconnect_batch(after_frame(after_connect_batch(s, seq![p])), seq![p.id]),
            );
            &&& !t.heartbeats.contains_key(p.id)
            &&& t.endpoints[p.endpoint] == p.id
            &&& forall|k: int| 0 <= k < t.players.len() ==> (#[trigger] t.players[k]).id != p.id
        }),
{
    law_connected_player_is_registered(s, p);
    let joined = after_frame(after_connect_batch(s, seq![p]));
    assert(seq![p.id].contains(p.id)) by {
        assert(seq![p.id][0] == p.id);
    }
    law_departed_player_is_forgotten(joined, seq![p.id], p.id);
}

// ------------------------------------------------------------------ movement

/// A movement is sent on to the other players only: every message it
/// produces goes to the endpoint of a player other than the mover, and
/// announces the mover.
pub proof fn law_movement_goes_to_others(
    players: Seq<PlayerView>,
    moved: u64,
    sets_transform: bool,
    i: int,
)
    requires
        0 <= i < movement_actions(players, moved, sets_transform).len(),
    ensures
        movement_actions(players, moved, sets_transform)[i] matches ActionView::Send { to, message }
            ==> message == (MessageView::SomeoneMoved { id: moved }) && exists|k: int|
            0 <= k < players.len() && (#[trigger] players[k]).endpoint == to && players[k].id != moved,
    decreases players.len(),
{
    let rest = movement_actions(players.drop_last(), moved, sets_transform);
    if i < rest.len() {
        law_movement_goes_to_others(players.drop_last(), moved, sets_transform, i);
        if let ActionView::Send { to, message } = rest[i] {
            let k = choose|k: int|
                0 <= k < players.drop_last().len() && (#[trigger] players.drop_last()[k]).endpoint
                    == to && players.drop_last()[k].id != moved;
            assert(players[k] == players.drop_last()[k]);
        }
    } else {
        assert(players[players.len() - 1] == players.last());
    }
}

/// Routing a movement over two groups of players is routing it over each
/// group in turn: every player present gets its own share, in order.
pub proof fn law_movement_splits(
    a: Seq<PlayerView>,
    b: Seq<PlayerView>,
    moved: u64,
    sets_transform: bool,
)
    ensures
        movement_actions(a + b, moved, sets_transform) == movement_actions(a, moved, sets_transform)
            + movement_actions(b, moved, sets_transform),
    decreases b.len(),
{
    if b.len() == 0 {
        assert(a + b =~= a);
        assert(movement_actions(a, moved, sets_transform) + Seq::<ActionView>::empty()
            =~= movement_actions(a, moved, sets_transform));
    } else {
        law_movement_splits(a, b.drop_last(), moved, sets_transform);
        assert((a + b).drop_last() =~= a + b.drop_last());
        assert((a + b).last() == b.last());
    }
}

/// The share of one player: the mover takes its new transform when the
/// movement sets one, and anyone else is sent the movement.
pub proof fn law_movement_of_one_player(p: PlayerView, moved: u64, sets_transform: bool)
    ensures
        movement_actions(seq![p], moved, sets_transform) == (if p.id == moved {
            if sets_transform {
                seq![ActionView::SetTransform { id: moved }]
            } else {
                Seq::<ActionView>::empty()
            }
        } else {
            seq![ActionView::Send { to: p.endpoint, message: MessageView::SomeoneMoved { id: moved } }]
        }),
{
    assert(seq![p].drop_last() =~= Seq::<PlayerView>::empty());
    assert(seq![p].last() == p);
    assert(movement_actions(seq![p].drop_last(), moved, sets_transform) == Seq::<ActionView>::empty());
    assert(Seq::<ActionView>::empty() + seq![ActionView::SetTransform { id: moved }] =~= seq![
        ActionView::SetTransform { id: moved },
    ]);
    assert(Seq::<ActionView>::empty() + seq![
        ActionView::Send { to: p.endpoint, message: MessageView::SomeoneMoved { id: moved } },
    ] =~= seq![
        ActionView::Send { to: p.endpoint, message: MessageView::SomeoneMoved { id: moved } },
    ]);
    assert(Seq::<ActionView>::empty() + Seq::<ActionView>::empty() =~= Seq::<ActionView>::empty());
}

/// Every player present other than the mover is sent the movement, and the
/// mover takes its transform when the movement sets one, whatever the other
/// players present.
pub proof fn law_movement_reaches_every_other_player(
    s: ServerView,
    endpoint: u64,
    sets_transform: bool,
    j: int,
)
    requires
        s.endpoints.contains_key(endpoint),
        0 <= j < s.players.len(),
    ensures
        s.players[j].id != s.endpoints[endpoint] ==> route_actions(s, endpoint, sets_transform).contains(
            ActionView::Send {
                to: s.players[j].endpoint,
                message: MessageView::SomeoneMoved { id: s.endpoints[endpoint] },
            },
        ),
        s.players[j].id == s.endpoints[endpoint] && sets_transform ==> route_actions(
            s,
            endpoint,
            sets_transform,
        ).contains(ActionView::SetTransform { id: s.endpoints[endpoint] }),
{
    let ps = s.players;
    let moved = s.endpoints[endpoint];
    let a = ps.take(j);
    let b = ps.skip(j + 1);
    assert(ps =~= a + seq![ps[j]] + b);
    law_movement_splits(a + seq![ps[j]], b, moved, sets_transform);
    law_movement_splits(a, seq![ps[j]], moved, sets_transform);
    law_movement_of_one_player(ps[j], moved, sets_transform);
    let all = movement_actions(ps, moved, sets_transform);
    let k = movement_actions(a, moved, sets_transform).len();
    if ps[j].id != moved || sets_transform {
        assert(all[k as int] == movement_actions(seq![ps[j]], moved, sets_transform)[0]);
    }
}

/// Announcing a departure to two groups of players is announcing it to
/// each group in turn.
pub proof fn law_departure_splits(a: Seq<PlayerView>, b: Seq<PlayerView>, id: u64)
    ensures
        disconnect_actions(a + b, id) == disconnect_actions(a, id) + disconnect_actions(b, id),
    decreases b.len(),
{
    if b.len() == 0 {
        assert(a + b =~= a);
        assert(disconnect_actions(a, id) + Seq::<ActionView>::empty() =~= disconnect_actions(a, id));
    } else {
        law_departure_splits(a, b.drop_last(), id);
        assert((a + b).drop_last() =~= a + b.drop_last());
        assert((a + b).last() == b.last());
    }
}

/// The share of one player present in a departure: it is sent the notice,
/// and when it is the leaving player its entity is removed.
pub proof fn law_departure_of_one_player(p: PlayerView, id: u64)
    ensures
        disconnect_actions(seq![p], id) == (if p.id == id {
            seq![
                ActionView::Send { to: p.endpoint, message: MessageView::PlayerDisconnected { id } },
                ActionView::Despawn { id },
            ]
        } else {
            seq![ActionView::Send { to: p.endpoint, message: MessageView::PlayerDisconnected { id } }]
        }),
{
    assert(seq![p].drop_last() =~= Seq::<PlayerView>::empty());
    assert(seq![p].last() == p);
    assert(disconnect_actions(seq![p].drop_last(), id) == Seq::<ActionView>::empty());
    let send = ActionView::Send { to: p.endpoint, message: MessageView::PlayerDisconnected { id } };
    assert(Seq::<ActionView>::empty() + seq![send, ActionView::Despawn { id }] =~= seq![
        send,
        ActionView::Despawn { id },
    ]);
    assert(Seq::<ActionView>::empty() + seq![send] =~= seq![send]);
}

/// The departures of a frame are announced one after another, in order:
/// the actions of two runs of departures are those of the first run
/// followed by those of the second, and a single departure is announced on
/// its own.
pub proof fn law_departures_in_order(present: Seq<PlayerView>, ids: Seq<u64>, more: Seq<u64>, id: u64)
    ensures
        disconnect_batch_actions(present, ids + more) == disconnect_batch_actions(present, ids)
            + disconnect_batch_actions(present, more),
        disconnect_batch_actions(present, seq![id]) == disconnect_actions(present, id),
    decreases more.len(),
{
    if more.len() == 0 {
        assert(ids + more =~= ids);
        assert(disconnect_batch_actions(present, ids) + Seq::<ActionView>::empty()
            =~= disconnect_batch_actions(present, ids));
    } else {
        law_departures_in_order(present, ids, more.drop_last(), id);
        assert((ids + more).drop_last() =~= ids + more.drop_last());
        assert((ids + more).last() == more.last());
    }
    assert(seq![id].drop_last() =~= Seq::<u64>::empty());
    assert(seq![id].last() == id);
    assert(disconnect_batch_actions(present, seq![id].drop_last()) == Seq::<ActionView>::empty());
    assert(Seq::<ActionView>::empty() + disconnect_actions(present, id) =~= disconnect_actions(
        present,
        id,
    ));
}

/// Every player present is told of every departure of the frame, and the
/// entity of each present player whose id leaves is removed.
pub proof fn law_every_departure_announced(present: Seq<PlayerView>, ids: Seq<u64>, k: int, j: int)
    requires
        0 <= k < ids.len(),
        0 <= j < present.len(),
    ensures
        disconnect_batch_actions(present, ids).contains(
            ActionView::Send {
                to: present[j].endpoint,
                message: MessageView::PlayerDisconnected { id: ids[k] },
            },
        ),
        present[j].id == ids[k] ==> disconnect_batch_actions(present, ids).contains(
            ActionView::Despawn { id: ids[k] },
        ),
{
    let id = ids[k];
    // the departure's own actions
    let a = present.take(j);
    let b = present.skip(j + 1);
    assert(present =~= a + seq![present[j]] + b);
    law_departure_splits(a + seq![present[j]], b, id);
    law_departure_splits(a, seq![present[j]], id);
    law_departure_of_one_player(present[j], id);
    let own = disconnect_actions(present, id);
    let off = disconnect_actions(a, id).len();
    assert(own[off as int] == ActionView::Send {
        to: present[j].endpoint,
        message: MessageView::PlayerDisconnected { id },
    });
    if present[j].id == id {
        assert(own[off as int + 1] == ActionView::Despawn { id });
    }
    // its place in the frame's actions
    let before = ids.take(k);
    let after = ids.skip(k + 1);
    assert(ids =~= before + seq![id] + after);
    law_departures_in_order(present, before + seq![id], after, id);
    law_departures_in_order(present, before, seq![id], id);
    let all = disconnect_batch_actions(present, ids);
    let start = disconnect_batch_actions(present, before).len();
    assert(all[start as int + off as int] == own[off as int]);
    if present[j].id == id {
        assert(all[start as int + off as int + 1] == own[off as int + 1]);
    }
}

} // verus!
