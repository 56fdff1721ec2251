//! The session server's registry of connected players.
//!
//! The server remembers, for every connected player, its network id, the
//! endpoint it talks from and its name; it counts the heartbeats each
//! player has missed and maps endpoints to the players that connected from
//! them. Each operation takes the events of one frame and returns, in
//! order, the actions the network and entity layers must carry out.
//! Entities are created and removed at the end of a frame (`end_frame`):
//! until then every operation sees the players present when the frame began.

use crate::naming::{choose_player_name, numbered_name, NAME_NUMBER_HIGH, NAME_NUMBER_LOW};
use std::collections::HashMap;
use vstd::std_specs::hash::spec_keys_iter;
use vstd::std_specs::iter::IteratorSpec;
use vstd::prelude::*;

verus! {

broadcast use vstd::std_specs::hash::group_hash_axioms;

/// How often, in milliseconds, the heartbeat check runs.
pub const HEARTBEAT_MILLIS: u64 = 200;

/// How long, in milliseconds, a player may stay silent before it is
/// disconnected.
pub const HEARTBEAT_TIMEOUT: u64 = 3000;

/// The number of missed heartbeat checks after which a player is reported.
pub open spec fn missed_beats_limit() -> int {
    (HEARTBEAT_TIMEOUT / HEARTBEAT_MILLIS) as int
}

/// A connected player as the server remembers it.
pub struct PlayerRecord {
    pub id: u64,
    pub endpoint: u64,
    pub name: String,
}

pub struct PlayerView {
    pub id: u64,
    pub endpoint: u64,
    pub name: Seq<char>,
}

impl View for PlayerRecord {
    type V = PlayerView;

    open spec fn view(&self) -> PlayerView {
        PlayerView { id: self.id, endpoint: self.endpoint, name: self.name@ }
    }
}

impl PlayerRecord {
    /// A copy of the record.
    pub fn duplicate(&self) -> (r: PlayerRecord)
        ensures
            r@ == self@,
    {
        PlayerRecord { id: self.id, endpoint: self.endpoint, name: self.name.clone() }
    }
}

/// A player as it is described to a newly connected one.
pub struct PlayerSummary {
    pub id: u64,
    pub name: String,
}

pub struct SummaryView {
    pub id: u64,
    pub name: Seq<char>,
}

impl View for PlayerSummary {
    type V = SummaryView;

    open spec fn view(&self) -> SummaryView {
        SummaryView { id: self.id, name: self.name@ }
    }
}

/// A message from the server to one client.
pub enum Message {
    /// Another player joined.
    PlayerConnected { id: u64, name: String },
    /// The welcome to a joining player: its own name and id, and the
    /// players that were there before it.
    WorldData { your_name: String, your_id: u64, players: Vec<PlayerSummary> },
    /// A player left.
    PlayerDisconnected { id: u64 },
    /// A player moved; the movement itself travels with it unchanged.
    SomeoneMoved { id: u64 },
}

pub enum MessageView {
    PlayerConnected { id: u64, name: Seq<char> },
    WorldData { your_name: Seq<char>, your_id: u64, players: Seq<SummaryView> },
    PlayerDisconnected { id: u64 },
    SomeoneMoved { id: u64 },
}

impl View for Message {
    type V = MessageView;

    open spec fn view(&self) -> MessageView {
        match self {
            Message::PlayerConnected { id, name } => MessageView::PlayerConnected {
                id: *id,
                name: name@,
            },
            Message::WorldData { your_name, your_id, players } => MessageView::WorldData {
                your_name: your_name@,
                your_id: *your_id,
                players: players@.map_values(|p: PlayerSummary| p@),
            },
            Message::PlayerDisconnected { id } => MessageView::PlayerDisconnected { id: *id },
            Message::SomeoneMoved { id } => MessageView::SomeoneMoved { id: *id },
        }
    }
}

/// What the network and entity layers must do, in order.
pub enum Action {
    /// Send `message` to the client at endpoint `to`.
    Send { to: u64, message: Message },
    /// Create the entity of a newly connected player.
    Spawn { id: u64, endpoint: u64, name: String },
    /// Remove the entity of the player with this id.
    Despawn { id: u64 },
    /// Give the player with this id the transform that its movement carries.
    SetTransform { id: u64 },
}

pub enum ActionView {
    Send { to: u64, message: MessageView },
    Spawn { id: u64, endpoint: u64, name: Seq<char> },
    Despawn { id: u64 },
    SetTransform { id: u64 },
}

impl View for Action {
    type V = ActionView;

    open spec fn view(&self) -> ActionView {
        match self {
            Action::Send { to, message } => ActionView::Send { to: *to, message: message@ },
            Action::Spawn { id, endpoint, name } => ActionView::Spawn {
                id: *id,
                endpoint: *endpoint,
                name: name@,
            },
            Action::Despawn { id } => ActionView::Despawn { id: *id },
            Action::SetTransform { id } => ActionView::SetTransform { id: *id },
        }
    }
}

pub open spec fn actions_view(v: Seq<Action>) -> Seq<ActionView> {
    v.map_values(|a: Action| a@)
}

pub open spec fn players_view(v: Seq<PlayerRecord>) -> Seq<PlayerView> {
    v.map_values(|p: PlayerRecord| p@)
}

/// A player asking to join: where it talks from and the name it chose, if any.
pub struct JoinRequest {
    pub endpoint: u64,
    pub name: Option<String>,
}

/// The registry of connected players.
pub struct Server {
    heartbeats: HashMap<u64, i16>,
    endpoints: HashMap<u64, u64>,
    players: Vec<PlayerRecord>,
    spawning: Vec<PlayerRecord>,
    despawning: Vec<u64>,
}

/// The registry in the abstract: missed heartbeats by player id, player id
/// by endpoint, the players whose entities exist, in the order they were
/// created, and the entities to create and the ids whose entities to remove
/// at the end of the frame.
pub struct ServerView {
    pub heartbeats: Map<u64, i16>,
    pub endpoints: Map<u64, u64>,
    pub players: Seq<PlayerView>,
    pub spawning: Seq<PlayerView>,
    pub despawning: Seq<u64>,
}

impl View for Server {
    type V = ServerView;

    closed spec fn view(&self) -> ServerView {
        ServerView {
            heartbeats: self.heartbeats@,
            endpoints: self.endpoints@,
            players: players_view(self.players@),
            spawning: players_view(self.spawning@),
            despawning: self.despawning@,
        }
    }
}

// ---------------------------------------------------------------- connecting

pub open spec fn summary_of(p: PlayerView) -> SummaryView {
    SummaryView { id: p.id, name: p.name }
}

/// What connecting one player `p` does when the players already there are
/// `present`: each of them hears of `p`, then `p` is welcomed with the list
/// of them, then its entity is created.
pub open spec fn connect_actions(present: Seq<PlayerView>, p: PlayerView) -> Seq<ActionView> {
    Seq::new(
        present.len(),
        |i: int|
            ActionView::Send {
                to: present[i].endpoint,
                message: MessageView::PlayerConnected { id: p.id, name: p.name },
            },
    ) + seq![
        ActionView::Send {
            to: p.endpoint,
            message: MessageView::WorldData {
                your_name: p.name,
                your_id: p.id,
                players: present.map_values(|q: PlayerView| summary_of(q)),
            },
        },
        ActionView::Spawn { id: p.id, endpoint: p.endpoint, name: p.name },
    ]
}

/// What connecting the players `joining` of one frame does. Entities are
/// created at the end of the frame, so every one of them sees only the
/// players `present` before the frame.
pub open spec fn connect_batch_actions(present: Seq<PlayerView>, joining: Seq<PlayerView>) -> Seq<
    ActionView,
>
    decreases joining.len(),
{
    if joining.len() == 0 {
        seq![]
    } else {
        connect_batch_actions(present, joining.drop_last()) + connect_actions(
            present,
            joining.last(),
        )
    }
}

/// The registry after player `p` connected: its heartbeat count starts at
/// zero, its endpoint now names it, and its entity is created at the end of
/// the frame.
pub open spec fn after_connect(s: ServerView, p: PlayerView) -> ServerView {
    ServerView {
        heartbeats: s.heartbeats.insert(p.id, 0),
        endpoints: s.endpoints.insert(p.endpoint, p.id),
        spawning: s.spawning.push(p),
        ..s
    }
}

pub open spec fn after_connect_batch(s: ServerView, joining: Seq<PlayerView>) -> ServerView
    decreases joining.len(),
{
    if joining.len() == 0 {
        s
    } else {
        after_connect(after_connect_batch(s, joining.drop_last()), joining.last())
    }
}

proof fn lemma_actions_view_concat(a: Seq<Action>, b: Seq<Action>)
    ensures
        actions_view(a + b) == actions_view(a) + actions_view(b),
{
    assert(actions_view(a + b) =~= actions_view(a) + actions_view(b));
}

proof fn lemma_players_view_push(a: Seq<PlayerRecord>, p: PlayerRecord)
    ensures
        players_view(a.push(p)) == players_view(a).push(p@),
{
    assert(players_view(a.push(p)) =~= players_view(a).push(p@));
}

/// Whether `rec` is how the player asking `req` joined: from the same
/// endpoint, under the name it asked for or else under `Player #` and a
/// number in `1..10000`.
pub open spec fn joined_as(req: JoinRequest, rec: PlayerRecord) -> bool {
    &&& rec.endpoint == req.endpoint
    &&& match req.name {
        Some(n) => rec.name@ == n@,
        None => exists|k: nat|
            NAME_NUMBER_LOW <= k < NAME_NUMBER_HIGH && rec.name@ == numbered_name(k),
    }
}

/// Whether `x` is one of the values of `v`.
fn listed(x: u64, v: &Vec<u64>) -> (b: bool)
    ensures
        b == v@.contains(x),
{
    let mut k: usize = 0;
    while k < v.len()
        invariant
            k <= v.len(),
            forall|t: int| 0 <= t < k ==> v@[t] != x,
        decreases v.len() - k,
    {
        if v[k] == x {
            assert(v@[k as int] == x);
            return true;
        }
        k = k + 1;
    }
    false
}

/// The id a joining player gets: the id `drawn` for it, unless an earlier
/// player of the same frame already took that one; then the smallest id
/// nobody of the frame took. (There is one among `0..=taken.len()`, since
/// `taken` holds fewer values than that range.)
fn fresh_id(drawn: u64, taken: &Vec<u64>) -> (id: u64)
    ensures
        !taken@.contains(id),
        !taken@.contains(drawn) ==> id == drawn,
{
    if !listed(drawn, taken) {
        return drawn;
    }
    let mut k: usize = 0;
    loop
        invariant
            k <= taken.len(),
            taken@.contains(drawn),
            forall|t: int| 0 <= t < k ==> taken@.contains(#[trigger] (t as u64)),
        decreases taken.len() - k,
    {
        let candidate = k as u64;
        if !listed(candidate, taken) {
            return candidate;
        }
        proof {
            let cands = Seq::new((k + 1) as nat, |t: int| t as u64);
            assert forall|a: int, b: int| 0 <= a < b < cands.len() implies cands[a] != cands[b] by {
                assert(cands[a] == a as u64 && cands[b] == b as u64);
            }
            assert(cands.no_duplicates());
            cands.unique_seq_to_set();
            assert forall|x: u64| cands.to_set().contains(x) implies taken@.to_set().contains(x) by {
                let t = choose|t: int| 0 <= t < cands.len() && cands[t] == x;
                assert(cands[t] == t as u64);
            }
            taken@.lemma_cardinality_of_set();
            vstd::set_lib::lemma_len_subset(cands.to_set(), taken@.to_set());
        }
        k = k + 1;
    }
}

/// Generates a fresh network id with `rand::random`.
/// Nothing is claimed of the id: it rests on chance.
#[verifier::external_body]
pub(crate) fn random_net_id() -> (id: u64) {
    rand::random::<u64>()
}

impl Server {
    /// A server with no players.
    pub fn new() -> (s: Server)
        ensures
            s@ == (ServerView {
                heartbeats: Map::empty(),
                endpoints: Map::empty(),
                players: Seq::empty(),
                spawning: Seq::empty(),
                despawning: Seq::empty(),
            }),
    {
        let s = Server {
            heartbeats: HashMap::new(),
            endpoints: HashMap::new(),
            players: Vec::new(),
            spawning: Vec::new(),
            despawning: Vec::new(),
        };
        assert(players_view(s.players@) =~= Seq::<PlayerView>::empty());
        assert(players_view(s.spawning@) =~= Seq::<PlayerView>::empty());
        s
    }

    /// The players whose entities exist, in the order they were created.
    pub fn players(&self) -> (ps: &Vec<PlayerRecord>)
        ensures
            players_view(ps@) == self@.players,
    {
        &self.players
    }

    /// The heartbeats missed by the player with this id, if it has a count.
    pub fn missed_beats(&self, id: u64) -> (m: Option<i16>)
        ensures
            m == (if self@.heartbeats.contains_key(id) {
                Some(self@.heartbeats[id])
            } else {
                None::<i16>
            }),
    {
        match self.heartbeats.get(&id) {
            Some(v) => Some(*v),
            None => None,
        }
    }

    /// The player id last connected from this endpoint, if any.
    pub fn player_at(&self, endpoint: u64) -> (id: Option<u64>)
        ensures
            id == (if self@.endpoints.contains_key(endpoint) {
                Some(self@.endpoints[endpoint])
            } else {
                None::<u64>
            }),
    {
        match self.endpoints.get(&endpoint) {
            Some(v) => Some(*v),
            None => None,
        }
    }

    /// The actions of connecting `p` while `present` are the players.
    fn connect_one(present: &Vec<PlayerRecord>, p: &PlayerRecord) -> (r: Vec<Action>)
        ensures
            actions_view(r@) == connect_actions(players_view(present@), p@),
    {
        let ghost pv = players_view(present@);
        let mut r: Vec<Action> = Vec::new();
        let mut summaries: Vec<PlayerSummary> = Vec::new();
        let mut j: usize = 0;
        while j < present.len()
            invariant
                j <= present.len(),
                pv == players_view(present@),
                r@.len() == j,
                summaries@.len() == j,
                forall|k: int|
                    0 <= k < j ==> #[trigger] r@[k]@ == (ActionView::Send {
                        to: pv[k].endpoint,
                        message: MessageView::PlayerConnected { id: p.id, name: p.name@ },
                    }),
                forall|k: int| 0 <= k < j ==> #[trigger] summaries@[k]@ == summary_of(pv[k]),
            decreases present.len() - j,
        {
            let q = &present[j];
            r.push(
                Action::Send {
                    to: q.endpoint,
                    message: Message::PlayerConnected { id: p.id, name: p.name.clone() },
                },
            );
            summaries.push(PlayerSummary { id: q.id, name: q.name.clone() });
            j = j + 1;
        }
        let ghost notices = r@;
        proof {
            assert(summaries@.map_values(|s: PlayerSummary| s@) =~= pv.map_values(
                |q: PlayerView| summary_of(q),
            ));
        }
        r.push(
            Action::Send {
                to: p.endpoint,
                message: Message::WorldData {
                    your_name: p.name.clone(),
                    your_id: p.id,
                    players: summaries,
                },
            },
        );
        r.push(Action::Spawn { id: p.id, endpoint: p.endpoint, name: p.name.clone() });
        proof {
            assert(actions_view(r@) =~= connect_actions(pv, p@));
        }
        r
    }

    /// Connects the players `joining` of one frame, in order, and returns
    /// what the network and entity layers must do.
    pub fn connect_batch(&mut self, joining: Vec<PlayerRecord>) -> (actions: Vec<Action>)
        ensures
            final(self)@ == after_connect_batch(old(self)@, players_view(joining@)),
            actions_view(actions@) == connect_batch_actions(
                old(self)@.players,
                players_view(joining@),
            ),
    {
        let ghost s0 = self@;
        let ghost jv = players_view(joining@);
        let mut actions: Vec<Action> = Vec::new();
        let mut added: Vec<PlayerRecord> = Vec::new();
        let mut i: usize = 0;
        while i < joining.len()
            invariant
                i <= joining.len(),
                s0 == old(self)@,
                jv == players_view(joining@),
                players_view(self.players@) == s0.players,
                players_view(self.spawning@) == s0.spawning,
                self.despawning@ == s0.despawning,
                self.heartbeats@ == after_connect_batch(s0, jv.take(i as int)).heartbeats,
                self.endpoints@ == after_connect_batch(s0, jv.take(i as int)).endpoints,
                after_connect_batch(s0, jv.take(i as int)).players == s0.players,
                after_connect_batch(s0, jv.take(i as int)).despawning == s0.despawning,
                after_connect_batch(s0, jv.take(i as int)).spawning == s0.spawning
                    + players_view(added@),
                actions_view(actions@) == connect_batch_actions(s0.players, jv.take(i as int)),
            decreases joining.len() - i,
        {
            let p = &joining[i];
            let mut step = Self::connect_one(&self.players, p);
            proof {
                lemma_actions_view_concat(actions@, step@);
                assert(jv.take(i + 1).drop_last() =~= jv.take(i as int));
                lemma_players_view_push(added@, *p);
                assert(s0.spawning + players_view(added@).push(p@) =~= (s0.spawning
                    + players_view(added@)).push(p@));
            }
            actions.append(&mut step);
            self.heartbeats.insert(p.id, 0);
            self.endpoints.insert(p.endpoint, p.id);
            added.push(p.duplicate());
            i = i + 1;
        }
        proof {
            assert(jv.take(joining.len() as int) =~= jv);
            assert(players_view(self.spawning@ + added@) =~= players_view(self.spawning@)
                + players_view(added@));
        }
        self.spawning.append(&mut added);
        actions
    }

    /// Connects the players asking to join in one frame. A player that asked
    /// for no name is named `Player #` and a number drawn from `1..10000`;
    /// each gets a fresh random id. Returns the players as they joined and
    /// the actions of connecting them.
    pub fn connect_players(&mut self, requests: Vec<JoinRequest>) -> (r: (
        Vec<PlayerRecord>,
        Vec<Action>,
    ))
        ensures
            r.0@.len() == requests@.len(),
            forall|i: int| 0 <= i < requests@.len() ==> joined_as(requests@[i], #[trigger] r.0@[i]),
            forall|i: int, j: int| 0 <= i < j < r.0@.len() ==> (#[trigger] r.0@[i]).id != (
            #[trigger] r.0@[j]).id,
            final(self)@ == after_connect_batch(old(self)@, players_view(r.0@)),
            actions_view(r.1@) == connect_batch_actions(old(self)@.players, players_view(r.0@)),
    {
        let mut ids: Vec<u64> = Vec::new();
        let mut joining: Vec<PlayerRecord> = Vec::new();
        let mut returned: Vec<PlayerRecord> = Vec::new();
        let ghost reqs = requests@;
        let mut i: usize = 0;
        let n = requests.len();
        while i < n
            invariant
                n == reqs.len(),
                i <= n,
                requests@.len() == n,
                forall|k: int| i <= k < n ==> #[trigger] requests@[k] == reqs[k],
                joining@.len() == i,
                players_view(returned@) == players_view(joining@),
                returned@.len() == i,
                forall|k: int| 0 <= k < i ==> joined_as(reqs[k], #[trigger] joining@[k]),
                ids@.len() == i,
                forall|k: int| 0 <= k < i ==> #[trigger] ids@[k] == joining@[k].id,
                forall|a: int, b: int| 0 <= a < b < i ==> (#[trigger] joining@[a]).id != (
                #[trigger] joining@[b]).id,
            decreases n - i,
        {
            let requested = match &requests[i].name {
                Some(nm) => Some(nm.clone()),
                None => None,
            };
            let endpoint = requests[i].endpoint;
            assert(requested == reqs[i as int].name);
            let name = choose_player_name(requested);
            let id = fresh_id(random_net_id(), &ids);
            let rec = PlayerRecord { id, endpoint, name };
            let ghost joining_before = joining@;
            let ghost ids_before = ids@;
            proof {
                lemma_players_view_push(returned@, rec);
                lemma_players_view_push(joining@, rec);
            }
            returned.push(rec.duplicate());
            joining.push(rec);
            ids.push(id);
            proof {
                assert forall|a: int, b: int| 0 <= a < b <= i implies (#[trigger] joining@[a]).id != (
                #[trigger] joining@[b]).id by {
                    if b == i {
                        assert(ids_before[a] == joining@[a].id);
                        assert(ids_before.contains(joining@[a].id));
                    } else {
                        assert(joining@[a] == joining_before[a] && joining@[b] == joining_before[b]);
                    }
                }
                assert forall|k: int| 0 <= k <= i implies #[trigger] ids@[k] == joining@[k].id by {
                    if k < i {
                        assert(ids@[k] == ids_before[k] && joining@[k] == joining_before[k]);
                    }
                }
                assert forall|k: int| 0 <= k <= i implies joined_as(
                    reqs[k],
                    #[trigger] joining@[k],
                ) by {
                    if k < i {
                        assert(joining@[k] == joining_before[k]);
                    }
                }
            }
            i = i + 1;
        }
        let actions = self.connect_batch(joining);
        assert(returned@.len() == joining@.len());
        proof {
            assert forall|k: int| 0 <= k < returned@.len() implies returned@[k]@ == joining@[k]@ by {
                assert(players_view(returned@)[k] == players_view(joining@)[k]);
            }
            assert forall|a: int, b: int| 0 <= a < b < returned@.len() implies (
            #[trigger] returned@[a]).id != (#[trigger] returned@[b]).id by {
                assert(returned@[a]@ == joining@[a]@ && returned@[b]@ == joining@[b]@);
                assert(joining@[a].id != joining@[b].id);
            }
        }
        (returned, actions)
    }
}


// ------------------------------------------------------------- disconnecting

/// What one player's leaving tells one of the players `p` present: it is
/// sent the notice, and the entity of the leaving player is removed.
pub open spec fn disconnect_notice(p: PlayerView, id: u64) -> Seq<ActionView> {
    if p.id == id {
        seq![
            ActionView::Send { to: p.endpoint, message: MessageView::PlayerDisconnected { id } },
            ActionView::Despawn { id },
        ]
    } else {
        seq![ActionView::Send { to: p.endpoint, message: MessageView::PlayerDisconnected { id } }]
    }
}

/// What the leaving of player `id` does when `present` are the players.
pub open spec fn disconnect_actions(present: Seq<PlayerView>, id: u64) -> Seq<ActionView>
    decreases present.len(),
{
    if present.len() == 0 {
        seq![]
    } else {
        disconnect_actions(present.drop_last(), id) + disconnect_notice(present.last(), id)
    }
}

/// What the leaving of the players `ids` of one frame does. Entities are
/// removed at the end of the frame, so every notice goes to all the
/// players `present` before the frame.
pub open spec fn disconnect_batch_actions(present: Seq<PlayerView>, ids: Seq<u64>) -> Seq<
    ActionView,
>
    decreases ids.len(),
{
    if ids.len() == 0 {
        seq![]
    } else {
        disconnect_batch_actions(present, ids.drop_last()) + disconnect_actions(
            present,
            ids.last(),
        )
    }
}

/// The players left once those with an id in `ids` are gone, in order.
pub open spec fn without_ids(players: Seq<PlayerView>, ids: Seq<u64>) -> Seq<PlayerView>
    decreases players.len(),
{
    if players.len() == 0 {
        seq![]
    } else {
        let rest = without_ids(players.drop_last(), ids);
        if ids.contains(players.last().id) {
            rest
        } else {
            rest.push(players.last())
        }
    }
}

/// The registry after the players `ids` left: their heartbeat counts are
/// gone, and their entities are removed at the end of the frame. The
/// endpoints they connected from still name them.
pub open spec fn after_disconnect_batch(s: ServerView, ids: Seq<u64>) -> ServerView {
    ServerView {
        heartbeats: s.heartbeats.remove_keys(ids.to_set()),
        despawning: s.despawning + ids,
        ..s
    }
}

/// The registry at the end of a frame: the entities of the players that
/// left are removed, then those of the players that joined are created.
pub open spec fn after_frame(s: ServerView) -> ServerView {
    ServerView {
        players: without_ids(s.players, s.despawning) + s.spawning,
        spawning: Seq::empty(),
        despawning: Seq::empty(),
        ..s
    }
}

// ---------------------------------------------------------------- heartbeats

/// One more missed heartbeat; the count wraps around as a 16-bit integer.
pub open spec fn bump(x: i16) -> i16 {
    if x == i16::MAX {
        i16::MIN
    } else {
        (x + 1) as i16
    }
}

/// Every count after one heartbeat check.
pub open spec fn ticked(m: Map<u64, i16>) -> Map<u64, i16> {
    Map::new(|k: u64| m.dom().contains(k), |k: u64| bump(m[k]))
}

/// The players a heartbeat check reports: those that had already missed
/// `missed_beats_limit()` checks before it.
pub open spec fn timed_out(m: Map<u64, i16>) -> Set<u64> {
    Set::new(|k: u64| m.dom().contains(k) && m[k] >= missed_beats_limit())
}

/// The counts after a heartbeat arrived from `endpoint`: the player last
/// connected from there starts counting from zero again, if it still has a
/// count.
pub open spec fn after_heartbeat(s: ServerView, endpoint: u64) -> ServerView {
    if s.endpoints.contains_key(endpoint) && s.heartbeats.contains_key(s.endpoints[endpoint]) {
        ServerView { heartbeats: s.heartbeats.insert(s.endpoints[endpoint], 0), ..s }
    } else {
        s
    }
}

// ------------------------------------------------------------------ movement

/// What one player `p` present gets of the movement of player `moved`:
/// the mover itself takes the new transform when the movement sets one,
/// every other player is sent the movement.
pub open spec fn movement_notice(p: PlayerView, moved: u64, sets_transform: bool) -> Seq<
    ActionView,
> {
    if p.id == moved {
        if sets_transform {
            seq![ActionView::SetTransform { id: moved }]
        } else {
            seq![]
        }
    } else {
        seq![ActionView::Send { to: p.endpoint, message: MessageView::SomeoneMoved { id: moved } }]
    }
}

pub open spec fn movement_actions(present: Seq<PlayerView>, moved: u64, sets_transform: bool) -> Seq<
    ActionView,
>
    decreases present.len(),
{
    if present.len() == 0 {
        seq![]
    } else {
        movement_actions(present.drop_last(), moved, sets_transform) + movement_notice(
            present.last(),
            moved,
            sets_transform,
        )
    }
}

/// What a movement arriving from `endpoint` does: nothing if no player
/// connected from there, else it is routed to the player last connected
/// from there.
pub open spec fn route_actions(s: ServerView, endpoint: u64, sets_transform: bool) -> Seq<
    ActionView,
> {
    if s.endpoints.contains_key(endpoint) {
        movement_actions(s.players, s.endpoints[endpoint], sets_transform)
    } else {
        seq![]
    }
}

proof fn lemma_contains_take_succ(ids: Seq<u64>, i: int, x: u64)
    requires
        0 <= i < ids.len(),
    ensures
        ids.take(i + 1).contains(x) == (ids.take(i).contains(x) || ids[i] == x),
{
    if ids.take(i + 1).contains(x) {
        let j = choose|j: int| 0 <= j < i + 1 && #[trigger] ids.take(i + 1)[j] == x;
        if j < i {
            assert(ids.take(i)[j] == x);
        }
    }
    if ids.take(i).contains(x) {
        let j = choose|j: int| 0 <= j < i && #[trigger] ids.take(i)[j] == x;
        assert(ids.take(i + 1)[j] == x);
    }
    if ids[i] == x {
        assert(ids.take(i + 1)[i] == x);
    }
}

impl Server {
    /// The notices of one leaving player `id` to the players `present`.
    fn disconnect_one(present: &Vec<PlayerRecord>, id: u64) -> (r: Vec<Action>)
        ensures
            actions_view(r@) == disconnect_actions(players_view(present@), id),
    {
        let ghost pv = players_view(present@);
        let mut r: Vec<Action> = Vec::new();
        let mut j: usize = 0;
        while j < present.len()
            invariant
                j <= present.len(),
                pv == players_view(present@),
                actions_view(r@) == disconnect_actions(pv.take(j as int), id),
            decreases present.len() - j,
        {
            let q = &present[j];
            let ghost before = r@;
            r.push(Action::Send { to: q.endpoint, message: Message::PlayerDisconnected { id } });
            if q.id == id {
                r.push(Action::Despawn { id });
            }
            proof {
                assert(pv.take(j + 1).drop_last() =~= pv.take(j as int));
                assert(pv.take(j + 1).last() == q@);
                assert(actions_view(r@) =~= actions_view(before) + disconnect_notice(q@, id));
            }
            j = j + 1;
        }
        assert(pv.take(present.len() as int) =~= pv);
        r
    }

    /// Disconnects the players `ids` of one frame, in order: each count of
    /// missed heartbeats goes, every player present hears of each leaving
    /// player, and the leaving players' entities are removed.
    pub fn disconnect_batch(&mut self, ids: Vec<u64>) -> (actions: Vec<Action>)
        ensures
            final(self)@ == after_disconnect_batch(old(self)@, ids@),
            actions_view(actions@) == disconnect_batch_actions(old(self)@.players, ids@),
    {
        let ghost s0 = self@;
        let mut actions: Vec<Action> = Vec::new();
        let mut i: usize = 0;
        while i < ids.len()
            invariant
                i <= ids.len(),
                s0 == old(self)@,
                players_view(self.players@) == s0.players,
                players_view(self.spawning@) == s0.spawning,
                self.despawning@ == s0.despawning,
                self.endpoints@ == s0.endpoints,
                self.heartbeats@ == s0.heartbeats.remove_keys(ids@.take(i as int).to_set()),
                actions_view(actions@) == disconnect_batch_actions(s0.players, ids@.take(i as int)),
            decreases ids.len() - i,
        {
            let id = ids[i];
            let mut step = Self::disconnect_one(&self.players, id);
            proof {
                lemma_actions_view_concat(actions@, step@);
                assert(ids@.take(i + 1).drop_last() =~= ids@.take(i as int));
            }
            actions.append(&mut step);
            self.heartbeats.remove(&id);
            proof {
                assert forall|x: u64| true implies ids@.take(i + 1).to_set().contains(x) == (
                ids@.take(i as int).to_set().contains(x) || x == id) by {
                    lemma_contains_take_succ(ids@, i as int, x);
                }
                assert(self.heartbeats@ =~= s0.heartbeats.remove_keys(
                    ids@.take(i + 1).to_set(),
                ));
            }
            i = i + 1;
        }
        assert(ids@.take(ids.len() as int) =~= ids@);
        let mut leaving = ids;
        self.despawning.append(&mut leaving);
        actions
    }

    /// The end of a frame: the entities of the players that left are
    /// removed, then those of the players that joined are created.
    pub fn end_frame(&mut self)
        ensures
            final(self)@ == after_frame(old(self)@),
    {
        let ghost s0 = self@;
        let mut kept: Vec<PlayerRecord> = Vec::new();
        let mut j: usize = 0;
        while j < self.players.len()
            invariant
                j <= self.players.len(),
                players_view(self.players@) == s0.players,
                self.despawning@ == s0.despawning,
                players_view(kept@) == without_ids(s0.players.take(j as int), s0.despawning),
            decreases self.players.len() - j,
        {
            let p = &self.players[j];
            let mut leaving = false;
            let mut k: usize = 0;
            while k < self.despawning.len()
                invariant
                    k <= self.despawning.len(),
                    leaving == self.despawning@.take(k as int).contains(p.id),
                decreases self.despawning.len() - k,
            {
                proof {
                    lemma_contains_take_succ(self.despawning@, k as int, p.id);
                }
                if self.despawning[k] == p.id {
                    leaving = true;
                }
                k = k + 1;
            }
            assert(self.despawning@.take(self.despawning.len() as int) =~= self.despawning@);
            proof {
                assert(s0.players.take(j + 1).drop_last() =~= s0.players.take(j as int));
                assert(s0.players.take(j + 1).last() == p@);
            }
            if !leaving {
                proof {
                    lemma_players_view_push(kept@, *p);
                }
                kept.push(p.duplicate());
            }
            j = j + 1;
        }
        assert(s0.players.take(self.players.len() as int) =~= s0.players);
        proof {
            assert(players_view(kept@ + self.spawning@) =~= players_view(kept@) + players_view(
                self.spawning@,
            ));
        }
        kept.append(&mut self.spawning);
        self.players = kept;
        self.despawning = Vec::new();
        assert(players_view(self.spawning@) =~= Seq::<PlayerView>::empty());
    }

    /// One heartbeat check: every player's count of missed heartbeats grows
    /// by one, and the players that had missed `missed_beats_limit()` or
    /// more before the check are returned, each once, in no stated order.
    pub fn check_heartbeats(&mut self) -> (expired: Vec<u64>)
        ensures
            final(self)@ == (ServerView { heartbeats: ticked(old(self)@.heartbeats), ..old(self)@ }),
            expired@.to_set() == timed_out(old(self)@.heartbeats),
            expired@.no_duplicates(),
    {
        let ghost m0 = self.heartbeats@;
        let limit: i16 = (HEARTBEAT_TIMEOUT / HEARTBEAT_MILLIS) as i16;
        assert(limit == 15 && missed_beats_limit() == 15);
        let mut keys: Vec<u64> = Vec::new();
        let ghost all = spec_keys_iter(&self.heartbeats).remaining().unref();
        proof {
            let refs = spec_keys_iter(&self.heartbeats).remaining();
            assert(refs.unref().to_set() == m0.dom());
            assert forall|a: int, b: int| 0 <= a < all.len() && 0 <= b < all.len() && a != b implies all[a]
                != all[b] by {
                assert(refs[a] != refs[b]);
            }
        }
        for k in it: self.heartbeats.keys()
            invariant
                it.seq() == spec_keys_iter(&self.heartbeats).remaining(),
                all == it.seq().unref(),
                keys@ == all.take(it.index()),
        {
            proof {
                assert(all.take(it.index() + 1) =~= all.take(it.index()).push(*k));
            }
            keys.push(*k);
        }
        assert(keys@ =~= all);
        let mut expired: Vec<u64> = Vec::new();
        let mut i: usize = 0;
        while i < keys.len()
            invariant
                i <= keys.len(),
                keys@.no_duplicates(),
                keys@.to_set() == m0.dom(),
                limit == missed_beats_limit(),
                self.endpoints == old(self).endpoints,
                self.players == old(self).players,
                self.spawning == old(self).spawning,
                self.despawning == old(self).despawning,
                self.heartbeats@.dom() == m0.dom(),
                forall|j: int| 0 <= j < i ==> #[trigger] self.heartbeats@[keys@[j]] == bump(m0[keys@[j]]),
                forall|x: u64|
                    m0.dom().contains(x) && !keys@.take(i as int).contains(x)
                        ==> #[trigger] self.heartbeats@[x] == m0[x],
                forall|x: u64|
                    #[trigger] expired@.contains(x) <==> (keys@.take(i as int).contains(x) && m0[x]
                        >= missed_beats_limit()),
                expired@.no_duplicates(),
            decreases keys.len() - i,
        {
            let k = keys[i];
            proof {
                if keys@.take(i as int).contains(k) {
                    let j = choose|j: int| 0 <= j < i && #[trigger] keys@.take(i as int)[j] == k;
                    assert(keys@[j] == keys@[i as int]);
                }
                assert(keys@.contains(k));
                assert(m0.dom().contains(k));
            }
            let count = *self.heartbeats.get(&k).unwrap();
            let ghost before = self.heartbeats@;
            let ghost expired_before = expired@;
            self.heartbeats.insert(k, count.wrapping_add(1));
            if count >= limit {
                expired.push(k);
            }
            proof {
                assert(count == m0[k]);
                assert(!expired_before.contains(k));
                assert forall|x: u64| true implies keys@.take(i + 1).contains(x) == (keys@.take(
                    i as int,
                ).contains(x) || keys@[i as int] == x) by {
                    lemma_contains_take_succ(keys@, i as int, x);
                }
                assert forall|x: u64|
                    m0.dom().contains(x) && !keys@.take(i + 1).contains(x) implies #[trigger] self.heartbeats@[x]
                    == m0[x] by {
                    assert(x != k);
                    assert(before[x] == m0[x]);
                }
                assert forall|x: u64|
                    #[trigger] expired@.contains(x) <==> (keys@.take(i + 1).contains(x) && m0[x]
                        >= missed_beats_limit()) by {
                    if count >= limit {
                        assert(expired@ == expired_before.push(k));
                        if expired@.contains(x) && x != k {
                            let j = choose|j: int| 0 <= j < expired@.len() && #[trigger] expired@[j] == x;
                            assert(expired_before[j] == x);
                        }
                        if expired_before.contains(x) {
                            let j = choose|j: int| 0 <= j < expired_before.len() && #[trigger] expired_before[j] == x;
                            assert(expired@[j] == x);
                        }
                        assert(expired@[expired_before.len() as int] == k);
                    }
                }
                assert forall|j: int| 0 <= j < i + 1 implies #[trigger] self.heartbeats@[keys@[j]] == bump(
                    m0[keys@[j]],
                ) by {
                    if j < i {
                        assert(keys@[j] != k);
                    }
                }
            }
            i = i + 1;
        }
        proof {
            assert(keys@.take(keys.len() as int) =~= keys@);
            assert(self.heartbeats@ =~= ticked(m0));
            assert(expired@.to_set() =~= timed_out(m0));
        }
        expired
    }

    /// A heartbeat arrived from `endpoint`: the player last connected from
    /// there, if it still has a count, has missed none since.
    pub fn record_heartbeat(&mut self, endpoint: u64)
        ensures
            final(self)@ == after_heartbeat(old(self)@, endpoint),
    {
        match self.endpoints.get(&endpoint) {
            Some(id) => {
                let id = *id;
                if self.heartbeats.contains_key(&id) {
                    self.heartbeats.insert(id, 0);
                }
            },
            None => {},
        }
    }

    /// Routes a movement that arrived from `endpoint`; `sets_transform`
    /// tells whether the movement gives its sender a new transform.
    pub fn route_movement(&self, endpoint: u64, sets_transform: bool) -> (actions: Vec<Action>)
        ensures
            actions_view(actions@) == route_actions(self@, endpoint, sets_transform),
    {
        let mut r: Vec<Action> = Vec::new();
        match self.endpoints.get(&endpoint) {
            None => {
                assert(actions_view(r@) =~= Seq::<ActionView>::empty());
                r
            },
            Some(moved) => {
                let moved = *moved;
                let ghost pv = players_view(self.players@);
                let mut j: usize = 0;
                while j < self.players.len()
                    invariant
                        j <= self.players.len(),
                        pv == players_view(self.players@),
                        actions_view(r@) == movement_actions(pv.take(j as int), moved, sets_transform),
                    decreases self.players.len() - j,
                {
                    let q = &self.players[j];
                    let ghost before = r@;
                    if q.id == moved {
                        if sets_transform {
                            r.push(Action::SetTransform { id: moved });
                        }
                    } else {
                        r.push(Action::Send { to: q.endpoint, message: Message::SomeoneMoved { id: moved } });
                    }
                    proof {
                        assert(pv.take(j + 1).drop_last() =~= pv.take(j as int));
                        assert(pv.take(j + 1).last() == q@);
                        assert(actions_view(r@) =~= actions_view(before) + movement_notice(
                            q@,
                            moved,
                            sets_transform,
                        ));
                    }
                    j = j + 1;
                }
                assert(pv.take(self.players.len() as int) =~= pv);
                r
            },
        }
    }

    /// Routes the movements of one frame, each given by the endpoint it came
    /// from and whether it sets its sender's transform. Routing changes
    /// nothing in the registry, so the frame's movements are routed one
    /// after another exactly as if each came alone.
    pub fn route_movements(&self, movements: &Vec<(u64, bool)>) -> (routed: Vec<Vec<Action>>)
        ensures
            routed@.len() == movements@.len(),
            forall|i: int|
                0 <= i < movements@.len() ==> actions_view((#[trigger] routed@[i])@) == route_actions(
                    self@,
                    movements@[i].0,
                    movements@[i].1,
                ),
    {
        let mut routed: Vec<Vec<Action>> = Vec::new();
        let mut i: usize = 0;
        while i < movements.len()
            invariant
                i <= movements.len(),
                routed@.len() == i,
                forall|k: int|
                    0 <= k < i ==> actions_view((#[trigger] routed@[k])@) == route_actions(
                        self@,
                        movements@[k].0,
                        movements@[k].1,
                    ),
            decreases movements.len() - i,
        {
            let (endpoint, sets_transform) = movements[i];
            routed.push(self.route_movement(endpoint, sets_transform));
            i = i + 1;
        }
        routed
    }
}

} // verus!
