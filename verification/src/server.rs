//! The server's authoritative world, as far as it is discrete: who is
//! connected from where, which players exist and how they fare, which
//! bullets are in flight.  The program around it moves ships and bullets and
//! tells it, as plain facts, what the geometry decided.

use crate::config::{BULLET_DAMAGE, BULLET_LIFETIME_TICKS, MAX_BULLETS, MAX_PLAYERS, CLIENT_TIMEOUT_NANOS, LAG_COMPENSATION_HISTORY_NANOS, PLAYER_MAX_HEALTH, SCOREBOARD_LENGTH};
use crate::clock::{instant_now, nanos_elapsed_since, wall_nanos};
use crate::connection::{timed_out_after, ClientConnection};
use crate::maps::keys_of;
use crate::protocol::{BulletState, Kill, LifeState, PlayerState, ScoreEntry};
use crate::scoreboard::{distinct_players, select_top_scores};
use crate::timeline::{drop_older, representable, LagCompensator, LagCompensatorSnapshot};
use std::collections::HashMap;
use std::time::{Instant, SystemTime};
use vstd::prelude::*;

verus! {

broadcast use vstd::std_specs::hash::group_hash_axioms;

/// Why a connection was refused.
#[derive(Clone, Copy, Debug, PartialEq, Eq, Structural)]
pub enum RejectReason {
    /// The server already holds `MAX_PLAYERS` players.
    ServerFull,
    /// The address is already connected.
    AlreadyConnected,
}

impl RejectReason {
    /// The text sent to the refused client.
    pub fn message(&self) -> (text: &'static str)
        ensures
            *self == RejectReason::ServerFull ==> text@ == "Server full"@,
            *self == RejectReason::AlreadyConnected ==> text@ == "Client already connected"@,
    {
        match self {
            RejectReason::ServerFull => "Server full",
            RejectReason::AlreadyConnected => "Client already connected",
        }
    }
}

/// The server's answer to a connection request.
pub enum ConnectReply {
    Accepted { player: PlayerState },
    Rejected { reason: RejectReason },
}

/// What a shot did: the projectile it left in flight, if it did not hit at
/// once, and the death it caused, if any.
pub struct ShotOutcome {
    pub bullet: Option<BulletState>,
    pub kill: Option<Kill>,
}

/// The players after `killer` has killed `victim`: the victim is dead at zero
/// health, and the killer, if still present, scores one more.
pub open spec fn after_death(players: Map<u64, PlayerState>, victim: u64, killer: u64) -> Map<u64, PlayerState> {
    let p = if players.contains_key(victim) {
        players.insert(victim, PlayerState { life: LifeState::Dead, health: 0, ..players[victim] })
    } else {
        players
    };
    if p.contains_key(killer) {
        p.insert(killer, PlayerState { score: (p[killer].score + 1) as u64, ..p[killer] })
    } else {
        p
    }
}

/// Whether `damage` brings player `target` to zero health or below.
pub open spec fn is_lethal(players: Map<u64, PlayerState>, target: u64, damage: i32) -> bool {
    players.contains_key(target) && players[target].health - damage <= 0
}

/// The players after a bullet of `shooter` dealt `damage` to `target`.  A
/// target that is gone is not touched; one brought to zero health or below
/// dies, and the shooter gets the kill.
pub open spec fn after_hit(players: Map<u64, PlayerState>, target: u64, shooter: u64, damage: i32) -> Map<u64, PlayerState> {
    if players.contains_key(target) {
        let hurt = players.insert(
            target,
            PlayerState { health: (players[target].health - damage) as i32, ..players[target] },
        );
        if is_lethal(players, target, damage) {
            after_death(hurt, target, shooter)
        } else {
            hurt
        }
    } else {
        players
    }
}

/// Whether a bullet fired at `spawn_tick` may still fly at tick `tick`:
/// it is younger than the bullet lifetime and still inside the world.
pub open spec fn bullet_survives(bullet: BulletState, in_bounds: bool, tick: u64) -> bool {
    tick - bullet.spawn_tick < BULLET_LIFETIME_TICKS && in_bounds
}

/// The bullets, in order, that survive at tick `tick`, given for each
/// bullet whether it is inside the world.
pub open spec fn surviving_bullets(bullets: Seq<BulletState>, in_bounds: Seq<bool>, tick: u64) -> Seq<BulletState>
    decreases bullets.len(),
{
    if bullets.len() == 0 {
        Seq::empty()
    } else {
        let last = bullets.len() - 1;
        let rest = surviving_bullets(bullets.drop_last(), in_bounds.take(last), tick);
        if bullet_survives(bullets[last], in_bounds[last], tick) {
            rest.push(bullets[last])
        } else {
            rest
        }
    }
}

/// Every bullet that survives at tick `tick` is younger than the bullet
/// lifetime then.
pub proof fn lemma_survivors_are_young(bullets: Seq<BulletState>, in_bounds: Seq<bool>, tick: u64)
    ensures
        forall|t: int| 0 <= t < surviving_bullets(bullets, in_bounds, tick).len()
            ==> tick - (#[trigger] surviving_bullets(bullets, in_bounds, tick)[t]).spawn_tick < BULLET_LIFETIME_TICKS,
    decreases bullets.len(),
{
    if bullets.len() > 0 {
        let last = bullets.len() - 1;
        let rest = surviving_bullets(bullets.drop_last(), in_bounds.take(last), tick);
        lemma_survivors_are_young(bullets.drop_last(), in_bounds.take(last), tick);
        let all = surviving_bullets(bullets, in_bounds, tick);
        assert forall|t: int| 0 <= t < all.len() implies tick - (#[trigger] all[t]).spawn_tick < BULLET_LIFETIME_TICKS by {
            if t < rest.len() {
                assert(all[t] == rest[t]);
            }
        }
    }
}

/// The newest `cap` of `bullets` (all of them when there are no more).
pub open spec fn newest(bullets: Seq<BulletState>, cap: nat) -> Seq<BulletState> {
    if bullets.len() > cap {
        bullets.subrange(bullets.len() - cap, bullets.len() as int)
    } else {
        bullets
    }
}

/// One bullet striking one player.
#[derive(Clone, Copy, Debug, PartialEq, Eq, Structural)]
pub struct Hit {
    pub bullet_id: u64,
    pub target_id: u64,
    pub shooter_id: u64,
    pub damage: i32,
}

/// The bullet with id `id` in `bullets`, if there is one.
pub open spec fn bullet_with_id(bullets: Seq<BulletState>, id: u64) -> Option<BulletState> {
    if exists|i: int| 0 <= i < bullets.len() && bullets[i].id == id {
        Some(bullets[choose|i: int| 0 <= i < bullets.len() && bullets[i].id == id])
    } else {
        None
    }
}

/// What an overlap of bullet `overlap.0` with player `overlap.1` amounts
/// to: a hit when the bullet exists, the player exists and is alive, and the
/// bullet is not the player's own.
pub open spec fn hit_of(bullets: Seq<BulletState>, players: Map<u64, PlayerState>, overlap: (u64, u64)) -> Option<Hit> {
    match bullet_with_id(bullets, overlap.0) {
        Some(b) => if players.contains_key(overlap.1) && players[overlap.1].life == LifeState::Alive
            && b.owner_id != overlap.1 {
            Some(Hit { bullet_id: b.id, target_id: overlap.1, shooter_id: b.owner_id, damage: b.damage })
        } else {
            None
        },
        None => None,
    }
}

/// The hits among `overlaps`, in order, judged against the world as it is
/// before any of them lands.
pub open spec fn hits_of(bullets: Seq<BulletState>, players: Map<u64, PlayerState>, overlaps: Seq<(u64, u64)>) -> Seq<Hit>
    decreases overlaps.len(),
{
    if overlaps.len() == 0 {
        Seq::empty()
    } else {
        let rest = hits_of(bullets, players, overlaps.drop_last());
        match hit_of(bullets, players, overlaps.last()) {
            Some(h) => rest.push(h),
            None => rest,
        }
    }
}

/// `bullets` without the ones with id `id`.
pub open spec fn without_bullet(bullets: Seq<BulletState>, id: u64) -> Seq<BulletState>
    decreases bullets.len(),
{
    if bullets.len() == 0 {
        Seq::empty()
    } else {
        let rest = without_bullet(bullets.drop_last(), id);
        if bullets.last().id != id {
            rest.push(bullets.last())
        } else {
            rest
        }
    }
}

/// Players, bullets and deaths after `hits` land one after the other: each
/// removes its bullet and damages its target, whatever has happened to the
/// target since.
pub open spec fn after_hits(players: Map<u64, PlayerState>, bullets: Seq<BulletState>, hits: Seq<Hit>) -> (Map<u64, PlayerState>, Seq<BulletState>, Seq<Kill>)
    decreases hits.len(),
{
    if hits.len() == 0 {
        (players, bullets, Seq::empty())
    } else {
        let before = after_hits(players, bullets, hits.drop_last());
        let h = hits.last();
        let kills = if is_lethal(before.0, h.target_id, h.damage) {
            before.2.push(Kill { victim: h.target_id, killer: h.shooter_id })
        } else {
            before.2
        };
        (after_hit(before.0, h.target_id, h.shooter_id, h.damage), without_bullet(before.1, h.bullet_id), kills)
    }
}

/// If `hit` kills, its shooter, if present, can still score one more.
pub open spec fn credit_has_room(players: Map<u64, PlayerState>, hit: Hit) -> bool {
    is_lethal(players, hit.target_id, hit.damage) && players.contains_key(hit.shooter_id)
        ==> players[hit.shooter_id].score < u64::MAX
}

/// As `hits` land one after the other, every kill credits a shooter whose
/// score can still grow.
pub open spec fn kills_have_room(players: Map<u64, PlayerState>, bullets: Seq<BulletState>, hits: Seq<Hit>) -> bool {
    forall|k: int| 0 <= k < hits.len()
        ==> #[trigger] credit_has_room(after_hits(players, bullets, hits.take(k)).0, hits[k])
}

/// A hit keeps the same players and raises a score by at most one.
pub proof fn lemma_after_hit_frame(players: Map<u64, PlayerState>, target: u64, shooter: u64, damage: i32)
    requires
        forall|id: u64| #[trigger] players.contains_key(id) ==> players[id].score < u64::MAX,
    ensures
        after_hit(players, target, shooter, damage).dom() == players.dom(),
        forall|id: u64| #[trigger] players.contains_key(id)
            ==> after_hit(players, target, shooter, damage)[id].score <= players[id].score + 1,
{
    assert(after_hit(players, target, shooter, damage).dom() =~= players.dom());
}

/// Some address in `removed` led to player `id`.
pub open spec fn reached_from(addresses: Map<u64, u64>, removed: Seq<u64>, id: u64) -> bool {
    exists|t: int| 0 <= t < removed.len() && #[trigger] addresses[removed[t]] == id
}

/// The addresses, in order, of the clients in `silences` (address and
/// nanoseconds since it was last heard from) that have been silent for
/// longer than the client timeout.
pub open spec fn silent_addresses(silences: Seq<(u64, u128)>) -> Seq<u64>
    decreases silences.len(),
{
    if silences.len() == 0 {
        Seq::empty()
    } else {
        let earlier = silent_addresses(silences.drop_last());
        if silences.last().1 > CLIENT_TIMEOUT_NANOS {
            earlier.push(silences.last().0)
        } else {
            earlier
        }
    }
}

/// `silences` gives a silence for each client of `clients`, once.
pub open spec fn lists_each_client(clients: Map<u64, ClientConnection>, silences: Seq<(u64, u128)>) -> bool {
    &&& silences.map_values(|s: (u64, u128)| s.0).no_duplicates()
    &&& silences.map_values(|s: (u64, u128)| s.0).to_set() == clients.dom()
}

/// The entries of `positions` (player id and position), in order, whose
/// player is alive in `players`.
pub open spec fn alive_entries<Q>(positions: Seq<(u64, Q)>, players: Map<u64, PlayerState>) -> Seq<(u64, Q)>
    decreases positions.len(),
{
    if positions.len() == 0 {
        Seq::empty()
    } else {
        let earlier = alive_entries(positions.drop_last(), players);
        let entry = positions.last();
        if players.contains_key(entry.0) && players[entry.0].life == LifeState::Alive {
            earlier.push(entry)
        } else {
            earlier
        }
    }
}

/// The scoreboard line of a player.
pub open spec fn entry_of(player: PlayerState) -> ScoreEntry {
    ScoreEntry { player_id: player.id, player_name: player.name, score: player.score }
}

/// `board` is the scoreboard of `players`: as many lines as there are
/// players, up to `SCOREBOARD_LENGTH`; best score first; each line the
/// current name and score of a distinct player; and no player left off
/// scores higher than a line on the board.
pub open spec fn is_scoreboard_of(board: Seq<ScoreEntry>, players: Map<u64, PlayerState>) -> bool {
    &&& board.len() == if players.len() < SCOREBOARD_LENGTH { players.len() } else { SCOREBOARD_LENGTH as nat }
    &&& crate::scoreboard::sorted_by_score_desc(board)
    &&& distinct_players(board)
    &&& forall|i: int| 0 <= i < board.len() ==> {
        &&& players.contains_key((#[trigger] board[i]).player_id)
        &&& board[i] == entry_of(players[board[i].player_id])
    }
    &&& forall|id: u64, i: int|
        #![trigger players[id], board[i]]
        players.contains_key(id) && 0 <= i < board.len() && !crate::scoreboard::on_board(board, id)
            ==> players[id].score <= board[i].score
}

/// `after` is `before` having admitted the client at `addr` as `player`:
/// the player has the fresh id, full health, no score, is alive and has no
/// input applied; it is filed under its id, the address leads to it and is
/// connected; nothing else changes.
pub open spec fn accepted(before: GameServer, after: GameServer, addr: u64, player: PlayerState) -> bool {
    let id = before.fresh_player_id();
    &&& !before.clients().contains_key(addr)
    &&& player.id == id
    &&& player.health == PLAYER_MAX_HEALTH
    &&& player.max_health == PLAYER_MAX_HEALTH
    &&& player.score == 0
    &&& player.life == LifeState::Alive
    &&& player.last_processed_input == 0
    &&& !before.players().contains_key(id)
    &&& after.players() == before.players().insert(id, player)
    &&& after.addresses() == before.addresses().insert(addr, id)
    &&& after.clients().dom() == before.clients().dom().insert(addr)
    &&& after.clients()[addr].player_id == id
    &&& forall|a: u64| a != addr && #[trigger] before.clients().contains_key(a)
        ==> after.clients()[a] == before.clients()[a]
    &&& after.bullets() == before.bullets()
    &&& after.current_tick() == before.current_tick()
    &&& after.next_player_id() == id
    &&& after.next_bullet_id() == before.next_bullet_id()
}

/// `after` is `before` having dropped the client at `addr`: if it was
/// connected, its address, its connection and its player are gone; an
/// unknown address changes nothing; nothing else changes.
pub open spec fn disconnected(before: GameServer, after: GameServer, addr: u64) -> bool {
    &&& before.addresses().contains_key(addr) ==> {
        &&& after.players() == before.players().remove(before.addresses()[addr])
        &&& after.addresses() == before.addresses().remove(addr)
        &&& after.clients() == before.clients().remove(addr)
    }
    &&& !before.addresses().contains_key(addr) ==> {
        &&& after.players() == before.players()
        &&& after.addresses() == before.addresses()
        &&& after.clients() == before.clients()
    }
    &&& after.bullets() == before.bullets()
    &&& after.current_tick() == before.current_tick()
    &&& after.next_player_id() == before.next_player_id()
    &&& after.next_bullet_id() == before.next_bullet_id()
}

/// Every id of `ids` is the player of some address of `addresses`.
#[verifier::opaque]
pub open spec fn all_reached(ids: Set<u64>, addresses: Map<u64, u64>) -> bool {
    forall|id: u64| #[trigger] ids.contains(id)
        ==> exists|a: u64| addresses.contains_key(a) && #[trigger] addresses[a] == id
}

/// Admitting a player at a new address keeps every player reached.
proof fn lemma_reached_after_admit(ids: Set<u64>, addresses: Map<u64, u64>, addr: u64, id: u64)
    requires
        all_reached(ids, addresses),
        !addresses.contains_key(addr),
    ensures
        all_reached(ids.insert(id), addresses.insert(addr, id)),
{
    reveal(all_reached);
    let after = addresses.insert(addr, id);
    assert forall|i: u64| #[trigger] ids.insert(id).contains(i)
        implies exists|a: u64| after.contains_key(a) && #[trigger] after[a] == i by {
        if i == id {
            assert(after.contains_key(addr) && after[addr] == i);
        } else {
            let a = choose|a: u64| addresses.contains_key(a) && #[trigger] addresses[a] == i;
            assert(after.contains_key(a) && after[a] == i);
        }
    }
}

/// Dropping an address with its player keeps every other player reached.
proof fn lemma_reached_after_drop(ids: Set<u64>, addresses: Map<u64, u64>, addr: u64)
    requires
        all_reached(ids, addresses),
        addresses.contains_key(addr),
    ensures
        all_reached(ids.remove(addresses[addr]), addresses.remove(addr)),
{
    reveal(all_reached);
    let after = addresses.remove(addr);
    assert forall|i: u64| #[trigger] ids.remove(addresses[addr]).contains(i)
        implies exists|a: u64| after.contains_key(a) && #[trigger] after[a] == i by {
        let a = choose|a: u64| addresses.contains_key(a) && #[trigger] addresses[a] == i;
        assert(a != addr);
        assert(after.contains_key(a) && after[a] == i);
    }
}

/// The server's world.
pub struct GameServer {
    players: HashMap<u64, PlayerState>,
    bullets: Vec<BulletState>,
    clients: HashMap<u64, ClientConnection>,
    addr_to_player_id: HashMap<u64, u64>,
    current_tick: u64,
    next_player_id: u64,
    next_bullet_id: u64,
}

impl GameServer {
    /// The players, by id.
    pub closed spec fn players(&self) -> Map<u64, PlayerState> {
        self.players@
    }

    /// The bullets in flight, oldest first.
    pub closed spec fn bullets(&self) -> Seq<BulletState> {
        self.bullets@
    }

    /// The connected clients, by address.
    pub closed spec fn clients(&self) -> Map<u64, ClientConnection> {
        self.clients@
    }

    /// The player of each connected address.
    pub closed spec fn addresses(&self) -> Map<u64, u64> {
        self.addr_to_player_id@
    }

    /// The tick the server is at.
    pub closed spec fn current_tick(&self) -> u64 {
        self.current_tick
    }

    /// Where the search for a free player id starts.
    pub closed spec fn next_player_id(&self) -> u64 {
        self.next_player_id
    }

    /// The id the next bullet gets.
    pub closed spec fn next_bullet_id(&self) -> u64 {
        self.next_bullet_id
    }

    /// Admitting the client at `addr` does not run the search for a free id
    /// past the largest id: the request is refused anyway, or the search
    /// stops at once, or it has room for its one step.
    pub open spec fn id_search_fits(&self, addr: u64) -> bool {
        self.players().len() < MAX_PLAYERS && !self.clients().contains_key(addr)
            && self.players().contains_key(self.next_player_id()) ==> self.next_player_id() < u64::MAX
    }

    /// The id the next admitted player gets: the first id from
    /// `next_player_id` on that no player holds.
    pub open spec fn fresh_player_id(&self) -> u64 {
        if self.players().contains_key(self.next_player_id()) {
            (self.next_player_id() + 1) as u64
        } else {
            self.next_player_id()
        }
    }

    /// The world is consistent: each player is filed under its own id, has
    /// health between zero and its maximum, and holds an id no greater than
    /// `next_player_id`; there are at most `MAX_PLAYERS` players; the
    /// connected addresses and the address-to-player table agree, each
    /// address leads to an existing player, no two addresses share one, and
    /// every player is led to from an address; the bullets are in increasing id order, below `next_bullet_id`, were
    /// fired no later than the current tick and deal `BULLET_DAMAGE`.
    pub closed spec fn wf(&self) -> bool {
        &&& self.wf_but_health()
        &&& forall|id: u64| #[trigger] self.players@.contains_key(id) ==> 0 <= self.players@[id].health
    }

    /// Everything `wf` asks but that health is not negative.
    closed spec fn wf_but_health(&self) -> bool {
        &&& forall|id: u64| #[trigger] self.players@.contains_key(id) ==> {
            &&& self.players@[id].id == id
            &&& self.players@[id].health <= self.players@[id].max_health
            &&& 0 <= self.players@[id].max_health
            &&& id <= self.next_player_id
        }
        &&& self.players@.len() <= MAX_PLAYERS
        &&& forall|a: u64|
            #[trigger] self.clients@.contains_key(a) <==> self.addr_to_player_id@.contains_key(a)
        &&& forall|a: u64| #[trigger] self.addr_to_player_id@.contains_key(a) ==> {
            &&& self.clients@[a].player_id == self.addr_to_player_id@[a]
            &&& self.players@.contains_key(self.addr_to_player_id@[a])
        }
        &&& forall|a: u64, b: u64|
            self.addr_to_player_id@.contains_key(a) && self.addr_to_player_id@.contains_key(b)
                && #[trigger] self.addr_to_player_id@[a] == #[trigger] self.addr_to_player_id@[b]
                ==> a == b
        &&& all_reached(self.players@.dom(), self.addr_to_player_id@)
        &&& forall|i: int, j: int|
            0 <= i < j < self.bullets@.len() ==> self.bullets@[i].id < self.bullets@[j].id
        &&& forall|i: int| 0 <= i < self.bullets@.len() ==> {
            &&& (#[trigger] self.bullets@[i]).id < self.next_bullet_id
            &&& self.bullets@[i].spawn_tick <= self.current_tick
            &&& self.bullets@[i].damage == BULLET_DAMAGE
        }
    }

    /// An empty world at tick zero.
    pub fn new() -> (server: Self)
        ensures
            server.wf(),
            server.players() == Map::<u64, PlayerState>::empty(),
            server.bullets() == Seq::<BulletState>::empty(),
            server.clients() == Map::<u64, ClientConnection>::empty(),
            server.addresses() == Map::<u64, u64>::empty(),
            server.current_tick() == 0,
            server.next_player_id() == 0,
            server.next_bullet_id() == 0,
    {
        let server = GameServer {
            players: HashMap::new(),
            bullets: Vec::new(),
            clients: HashMap::new(),
            addr_to_player_id: HashMap::new(),
            current_tick: 0,
            next_player_id: 0,
            next_bullet_id: 0,
        };
        proof {
            reveal(all_reached);
        }
        server
    }

    /// Moves `next_player_id` to the first id, from there on, that no player
    /// holds, and returns it.
    fn generate_next_player_id(&mut self) -> (id: u64)
        requires
            old(self).wf(),
            old(self).players().contains_key(old(self).next_player_id()) ==> old(self).next_player_id() < u64::MAX,
        ensures
            id == old(self).fresh_player_id(),
            !old(self).players().contains_key(id),
            final(self).next_player_id() == id,
            final(self).players() == old(self).players(),
            final(self).bullets() == old(self).bullets(),
            final(self).clients() == old(self).clients(),
            final(self).addresses() == old(self).addresses(),
            final(self).current_tick() == old(self).current_tick(),
            final(self).next_bullet_id() == old(self).next_bullet_id(),
            final(self).wf(),
    {
        let ghost start = self.next_player_id;
        // Every player id is at most `next_player_id`, so at most one step
        // is ever taken.
        while self.players.contains_key(&self.next_player_id)
            invariant
                self.players@ == old(self).players@,
                self.bullets@ == old(self).bullets@,
                self.clients@ == old(self).clients@,
                self.addr_to_player_id@ == old(self).addr_to_player_id@,
                self.current_tick == old(self).current_tick,
                self.next_bullet_id == old(self).next_bullet_id,
                start == old(self).next_player_id,
                self.players@.contains_key(start) ==> start < u64::MAX,
                start <= self.next_player_id <= start + 1,
                self.next_player_id == start + 1 ==> self.players@.contains_key(start),
                forall|pid: u64| #[trigger] self.players@.contains_key(pid) ==> pid <= start,
                old(self).wf(),
            decreases start + 1 - self.next_player_id,
        {
            self.next_player_id = self.next_player_id + 1;
        }
        self.next_player_id
    }

    /// Admits the client at `addr` under the name `player_name`, unless the
    /// server is full or the address is already connected; the new player
    /// gets the first free id from `next_player_id` on and starts at full
    /// health.
    pub fn handle_connect(&mut self, addr: u64, player_name: String) -> (reply: ConnectReply)
        requires
            old(self).wf(),
            old(self).id_search_fits(addr),
        ensures
            final(self).wf(),
            old(self).players().len() >= MAX_PLAYERS ==> {
                &&& reply == (ConnectReply::Rejected { reason: RejectReason::ServerFull })
                &&& *final(self) == *old(self)
            },
            old(self).players().len() < MAX_PLAYERS && old(self).clients().contains_key(addr) ==> {
                &&& reply == (ConnectReply::Rejected { reason: RejectReason::AlreadyConnected })
                &&& *final(self) == *old(self)
            },
            old(self).players().len() < MAX_PLAYERS && !old(self).clients().contains_key(addr) ==> {
                &&& reply matches ConnectReply::Accepted { player }
                &&& player.name@ == player_name@
                &&& accepted(*old(self), *final(self), addr, player)
            },
    {
        if self.players.len() >= MAX_PLAYERS {
            return ConnectReply::Rejected { reason: RejectReason::ServerFull };
        }
        if self.clients.contains_key(&addr) {
            return ConnectReply::Rejected { reason: RejectReason::AlreadyConnected };
        }
        let player_id = self.generate_next_player_id();
        let player = PlayerState::new(player_id, player_name, PLAYER_MAX_HEALTH);
        let copy = player.duplicate();
        self.clients.insert(addr, ClientConnection::new(player_id));
        self.addr_to_player_id.insert(addr, player_id);
        self.players.insert(player_id, copy);
        proof {
            assert(self.players@.dom() == old(self).players@.dom().insert(player_id));
            assert(self.players@.len() == old(self).players@.len() + 1);
            lemma_reached_after_admit(old(self).players@.dom(), old(self).addr_to_player_id@, addr, player_id);
            assert forall|a: u64, b: u64|
                self.addr_to_player_id@.contains_key(a) && self.addr_to_player_id@.contains_key(b)
                    && #[trigger] self.addr_to_player_id@[a] == #[trigger] self.addr_to_player_id@[b]
                    implies a == b by {
                if a != addr && b != addr {
                    assert(old(self).addr_to_player_id@.contains_key(a));
                    assert(old(self).addr_to_player_id@.contains_key(b));
                } else if a != addr {
                    assert(old(self).addr_to_player_id@.contains_key(a));
                    assert(old(self).players@.contains_key(old(self).addr_to_player_id@[a]));
                } else if b != addr {
                    assert(old(self).addr_to_player_id@.contains_key(b));
                    assert(old(self).players@.contains_key(old(self).addr_to_player_id@[b]));
                }
            }
        }
        ConnectReply::Accepted { player }
    }

    /// Whether admitting the client at `addr` keeps the search for a free id
    /// within the id range (see `id_search_fits`).
    pub fn connect_fits(&self, addr: u64) -> (ok: bool)
        ensures
            ok == self.id_search_fits(addr),
    {
        self.players.len() >= MAX_PLAYERS || self.clients.contains_key(&addr)
            || !self.players.contains_key(&self.next_player_id) || self.next_player_id < u64::MAX
    }

    /// Drops the client at `addr` and its player; an unknown address changes
    /// nothing.
    pub fn handle_disconnect(&mut self, addr: u64)
        requires
            old(self).wf(),
        ensures
            final(self).wf(),
            disconnected(*old(self), *final(self), addr),
    {
        if let Some(player_id) = self.addr_to_player_id.remove(&addr) {
            self.clients.remove(&addr);
            self.players.remove(&player_id);
            proof {
                assert(self.players@ =~= old(self).players@.remove(old(self).addr_to_player_id@[addr]));
                assert(self.addr_to_player_id@ =~= old(self).addr_to_player_id@.remove(addr));
                assert(self.clients@ =~= old(self).clients@.remove(addr));
                let pid = old(self).addr_to_player_id@[addr];
                assert(player_id == pid);
                assert(self.clients@.dom() =~= self.addr_to_player_id@.dom());
                assert(self.players@.dom() =~= old(self).players@.dom().remove(pid));
                lemma_reached_after_drop(old(self).players@.dom(), old(self).addr_to_player_id@, addr);
                assert(self.players@.len() <= old(self).players@.len());
                assert forall|a: u64| #[trigger] self.addr_to_player_id@.contains_key(a) implies {
                    &&& self.clients@[a].player_id == self.addr_to_player_id@[a]
                    &&& self.players@.contains_key(self.addr_to_player_id@[a])
                } by {
                    assert(old(self).addr_to_player_id@.contains_key(a));
                    assert(a != addr);
                    assert(old(self).addr_to_player_id@[a] != pid);
                }
                assert forall|a: u64, b: u64|
                    self.addr_to_player_id@.contains_key(a) && self.addr_to_player_id@.contains_key(b)
                        && #[trigger] self.addr_to_player_id@[a] == #[trigger] self.addr_to_player_id@[b]
                        implies a == b by {
                    assert(old(self).addr_to_player_id@.contains_key(a));
                    assert(old(self).addr_to_player_id@.contains_key(b));
                }
            }
        } else {
            proof {
                assert(self.addr_to_player_id@ =~= old(self).addr_to_player_id@);
            }
        }
    }

    /// Marks the client at `addr`, if connected, as heard from now.  The new
    /// time is the clock's; `update_last_heard_at` says what becomes of the
    /// world for every reading.
    pub fn update_last_heard(&mut self, addr: u64)
        requires
            old(self).wf(),
        ensures
            final(self).wf(),
            final(self).clients().dom() == old(self).clients().dom(),
            forall|a: u64| #[trigger] final(self).clients().contains_key(a)
                ==> final(self).clients()[a].player_id == old(self).clients()[a].player_id,
            forall|a: u64| a != addr && #[trigger] old(self).clients().contains_key(a)
                ==> final(self).clients()[a] == old(self).clients()[a],
            final(self).players() == old(self).players(),
            final(self).addresses() == old(self).addresses(),
            final(self).bullets() == old(self).bullets(),
            final(self).current_tick() == old(self).current_tick(),
            final(self).next_player_id() == old(self).next_player_id(),
            final(self).next_bullet_id() == old(self).next_bullet_id(),
    {
        self.update_last_heard_at(addr, instant_now());
    }

    /// Marks the client at `addr`, if connected, as heard from at `now`; the
    /// rest of the world stays as it was.
    pub fn update_last_heard_at(&mut self, addr: u64, now: Instant)
        requires
            old(self).wf(),
        ensures
            final(self).wf(),
            final(self).clients() == (if old(self).clients().contains_key(addr) {
                old(self).clients().insert(
                    addr,
                    ClientConnection { player_id: old(self).clients()[addr].player_id, last_heard: now },
                )
            } else {
                old(self).clients()
            }),
            final(self).players() == old(self).players(),
            final(self).addresses() == old(self).addresses(),
            final(self).bullets() == old(self).bullets(),
            final(self).current_tick() == old(self).current_tick(),
            final(self).next_player_id() == old(self).next_player_id(),
            final(self).next_bullet_id() == old(self).next_bullet_id(),
    {
        if let Some(mut client) = self.clients.remove(&addr) {
            client.touch_at(now);
            self.clients.insert(addr, client);
            proof {
                assert(self.clients@ =~= old(self).clients@.insert(
                    addr,
                    ClientConnection { player_id: old(self).clients@[addr].player_id, last_heard: now },
                ));
                assert forall|a: u64| #[trigger] self.addr_to_player_id@.contains_key(a) implies
                    self.clients@[a].player_id == self.addr_to_player_id@[a] by {
                    assert(old(self).addr_to_player_id@.contains_key(a));
                }
            }
        } else {
            proof {
                assert(self.clients@ =~= old(self).clients@);
            }
        }
    }

    /// The player steered from `addr`, if the address is connected and its
    /// player is alive.
    pub fn controllable_player(&self, addr: u64) -> (player_id: Option<u64>)
        requires
            self.wf(),
        ensures
            player_id == (if self.addresses().contains_key(addr)
                && self.players()[self.addresses()[addr]].life == LifeState::Alive {
                Some(self.addresses()[addr])
            } else {
                None
            }),
    {
        match self.addr_to_player_id.get(&addr) {
            Some(id) => {
                let id = *id;
                match self.players.get(&id) {
                    Some(player) => {
                        if player.life == LifeState::Alive {
                            Some(id)
                        } else {
                            None
                        }
                    },
                    None => None,
                }
            },
            None => None,
        }
    }

    /// The player connected from `addr`, if the address is connected.
    pub fn player_of(&self, addr: u64) -> (player_id: Option<u64>)
        requires
            self.wf(),
        ensures
            player_id == (if self.addresses().contains_key(addr) {
                Some(self.addresses()[addr])
            } else {
                None
            }),
    {
        match self.addr_to_player_id.get(&addr) {
            Some(id) => Some(*id),
            None => None,
        }
    }

    /// The player with id `id`, if there is one.
    pub fn player(&self, id: u64) -> (player: Option<&PlayerState>)
        requires
            self.wf(),
        ensures
            player == (if self.players().contains_key(id) {
                Some(&self.players()[id])
            } else {
                None
            }),
    {
        self.players.get(&id)
    }

    /// The bullets in flight, oldest first.
    pub fn bullet_states(&self) -> (bullets: &Vec<BulletState>)
        ensures
            bullets@ == self.bullets(),
    {
        &self.bullets
    }

    /// Notes that the input with sequence number `sequence` has been applied
    /// to player `player_id`.
    pub fn record_processed_input(&mut self, player_id: u64, sequence: u64)
        requires
            old(self).wf(),
        ensures
            final(self).wf(),
            final(self).players() == (if old(self).players().contains_key(player_id) {
                old(self).players().insert(
                    player_id,
                    PlayerState { last_processed_input: sequence, ..old(self).players()[player_id] },
                )
            } else {
                old(self).players()
            }),
            final(self).clients() == old(self).clients(),
            final(self).addresses() == old(self).addresses(),
            final(self).bullets() == old(self).bullets(),
            final(self).current_tick() == old(self).current_tick(),
            final(self).next_player_id() == old(self).next_player_id(),
            final(self).next_bullet_id() == old(self).next_bullet_id(),
    {
        if let Some(mut player) = self.players.remove(&player_id) {
            player.last_processed_input = sequence;
            self.players.insert(player_id, player);
            proof {
                assert(self.players@.dom() =~= old(self).players@.dom());
            }
        } else {
            proof {
                assert(self.players@ =~= old(self).players@);
            }
        }
    }

    /// Brings player `player_id` back into play: full health, no score,
    /// alive.
    pub fn respawn(&mut self, player_id: u64)
        requires
            old(self).wf(),
        ensures
            final(self).wf(),
            final(self).players() == (if old(self).players().contains_key(player_id) {
                old(self).players().insert(
                    player_id,
                    PlayerState {
                        health: old(self).players()[player_id].max_health,
                        score: 0,
                        life: LifeState::Alive,
                        ..old(self).players()[player_id]
                    },
                )
            } else {
                old(self).players()
            }),
            final(self).clients() == old(self).clients(),
            final(self).addresses() == old(self).addresses(),
            final(self).bullets() == old(self).bullets(),
            final(self).current_tick() == old(self).current_tick(),
            final(self).next_player_id() == old(self).next_player_id(),
            final(self).next_bullet_id() == old(self).next_bullet_id(),
    {
        if let Some(mut player) = self.players.remove(&player_id) {
            player.health = player.max_health;
            player.score = 0;
            player.life = LifeState::Alive;
            self.players.insert(player_id, player);
            proof {
                assert(self.players@.dom() =~= old(self).players@.dom());
            }
        } else {
            proof {
                assert(self.players@ =~= old(self).players@);
            }
        }
    }

    /// Kills `victim_id`, credited to `killer_id`: the victim, if present,
    /// is dead at zero health; the killer, if present, scores one more.
    fn handle_player_death(&mut self, victim_id: u64, killer_id: u64)
        requires
            old(self).wf_but_health(),
            forall|id: u64| #[trigger] old(self).players().contains_key(id) && id != victim_id
                ==> 0 <= old(self).players()[id].health,
            old(self).players().contains_key(killer_id) ==> old(self).players()[killer_id].score
                < u64::MAX,
        ensures
            final(self).wf(),
            final(self).players() == after_death(old(self).players(), victim_id, killer_id),
            final(self).clients() == old(self).clients(),
            final(self).addresses() == old(self).addresses(),
            final(self).bullets() == old(self).bullets(),
            final(self).current_tick() == old(self).current_tick(),
            final(self).next_player_id() == old(self).next_player_id(),
            final(self).next_bullet_id() == old(self).next_bullet_id(),
    {
        if let Some(mut victim) = self.players.remove(&victim_id) {
            victim.life = LifeState::Dead;
            victim.health = 0;
            self.players.insert(victim_id, victim);
        }
        proof {
            assert(self.players@ =~= (if old(self).players@.contains_key(victim_id) {
                old(self).players@.insert(
                    victim_id,
                    PlayerState { life: LifeState::Dead, health: 0, ..old(self).players@[victim_id] },
                )
            } else {
                old(self).players@
            }));
        }
        let ghost mid = self.players@;
        if let Some(mut killer) = self.players.remove(&killer_id) {
            killer.score = killer.score + 1;
            self.players.insert(killer_id, killer);
        }
        proof {
            assert(self.players@ =~= (if mid.contains_key(killer_id) {
                mid.insert(killer_id, PlayerState { score: (mid[killer_id].score + 1) as u64, ..mid[killer_id] })
            } else {
                mid
            }));
            assert(self.players@.dom() =~= old(self).players@.dom());
        }
    }

    /// A bullet of `shooter_id` deals `damage` to `target_id`; a target
    /// brought to zero health or below dies, credited to the shooter, and
    /// the death is returned.
    fn apply_hit(&mut self, target_id: u64, shooter_id: u64, damage: i32) -> (kill: Option<Kill>)
        requires
            old(self).wf(),
            0 <= damage,
            credit_has_room(old(self).players(), Hit { bullet_id: 0, target_id, shooter_id, damage }),
        ensures
            final(self).wf(),
            final(self).players() == after_hit(old(self).players(), target_id, shooter_id, damage),
            kill == (if is_lethal(old(self).players(), target_id, damage) {
                Some(Kill { victim: target_id, killer: shooter_id })
            } else {
                None
            }),
            final(self).clients() == old(self).clients(),
            final(self).addresses() == old(self).addresses(),
            final(self).bullets() == old(self).bullets(),
            final(self).current_tick() == old(self).current_tick(),
            final(self).next_player_id() == old(self).next_player_id(),
            final(self).next_bullet_id() == old(self).next_bullet_id(),
    {
        match self.players.remove(&target_id) {
            Some(mut target) => {
                target.health = target.health - damage;
                let lethal = target.health <= 0;
                self.players.insert(target_id, target);
                if lethal {
                    proof {
                        assert(self.players@.dom() =~= old(self).players@.dom());
                        assert(self.players@ =~= old(self).players@.insert(
                            target_id,
                            PlayerState {
                                health: (old(self).players@[target_id].health - damage) as i32,
                                ..old(self).players@[target_id]
                            },
                        ));
                    }
                    self.handle_player_death(target_id, shooter_id);
                    Some(Kill { victim: target_id, killer: shooter_id })
                } else {
                    proof {
                        assert(self.players@.dom() =~= old(self).players@.dom());
                        assert(self.players@ =~= old(self).players@.insert(
                            target_id,
                            PlayerState {
                                health: (old(self).players@[target_id].health - damage) as i32,
                                ..old(self).players@[target_id]
                            },
                        ));
                    }
                    None
                }
            },
            None => {
                proof {
                    assert(self.players@ =~= old(self).players@);
                }
                None
            },
        }
    }

    /// Player `shooter_id` fires.  The bullet takes the next bullet id.  If
    /// the lag-compensated hit test found a target, the bullet hits it at
    /// once (a target that has left takes nothing) and flies no further;
    /// otherwise it is put in flight from the current tick.  A shooter that
    /// is gone fires nothing.
    pub fn fire(&mut self, shooter_id: u64, instant_target: Option<u64>) -> (outcome: ShotOutcome)
        requires
            old(self).wf(),
            old(self).players().contains_key(shooter_id) ==> old(self).next_bullet_id() < u64::MAX,
            instant_target matches Some(target_id) ==> credit_has_room(
                old(self).players(),
                Hit { bullet_id: 0, target_id, shooter_id, damage: BULLET_DAMAGE },
            ),
        ensures
            final(self).wf(),
            final(self).clients() == old(self).clients(),
            final(self).addresses() == old(self).addresses(),
            final(self).current_tick() == old(self).current_tick(),
            final(self).next_player_id() == old(self).next_player_id(),
            !old(self).players().contains_key(shooter_id) ==> {
                &&& *final(self) == *old(self)
                &&& outcome.bullet.is_none()
                &&& outcome.kill.is_none()
            },
            old(self).players().contains_key(shooter_id) ==> {
                let bullet = BulletState {
                    id: old(self).next_bullet_id(),
                    owner_id: shooter_id,
                    spawn_tick: old(self).current_tick(),
                    damage: BULLET_DAMAGE,
                };
                &&& final(self).next_bullet_id() == old(self).next_bullet_id() + 1
                &&& match instant_target {
                    None => {
                        &&& final(self).bullets() == old(self).bullets().push(bullet)
                        &&& final(self).players() == old(self).players()
                        &&& outcome.bullet == Some(bullet)
                        &&& outcome.kill.is_none()
                    },
                    Some(target) => {
                        &&& final(self).bullets() == old(self).bullets()
                        &&& final(self).players() == after_hit(
                            old(self).players(),
                            target,
                            shooter_id,
                            BULLET_DAMAGE,
                        )
                        &&& outcome.bullet.is_none()
                        &&& outcome.kill == if is_lethal(old(self).players(), target, BULLET_DAMAGE) {
                            Some(Kill { victim: target, killer: shooter_id })
                        } else {
                            None
                        }
                    },
                }
            },
    {
        if !self.players.contains_key(&shooter_id) {
            return ShotOutcome { bullet: None, kill: None };
        }
        let bullet_id = self.next_bullet_id;
        self.next_bullet_id = self.next_bullet_id + 1;
        let bullet = BulletState {
            id: bullet_id,
            owner_id: shooter_id,
            spawn_tick: self.current_tick,
            damage: BULLET_DAMAGE,
        };
        match instant_target {
            Some(target_id) => {
                let kill = self.apply_hit(target_id, shooter_id, bullet.damage);
                ShotOutcome { bullet: None, kill }
            },
            None => {
                self.bullets.push(bullet);
                ShotOutcome { bullet: Some(bullet), kill: None }
            },
        }
    }

    /// Drops the bullets that are too old or, by `in_bounds` (one flag per
    /// bullet, in order), outside the world; then, if more than
    /// `MAX_BULLETS` remain, the oldest of them.
    pub fn update_bullets(&mut self, in_bounds: &Vec<bool>)
        requires
            old(self).wf(),
            in_bounds@.len() == old(self).bullets().len(),
        ensures
            final(self).wf(),
            final(self).bullets() == newest(
                surviving_bullets(old(self).bullets(), in_bounds@, old(self).current_tick()),
                MAX_BULLETS as nat,
            ),
            final(self).bullets().len() <= MAX_BULLETS,
            forall|i: int| 0 <= i < final(self).bullets().len()
                ==> final(self).current_tick() - (#[trigger] final(self).bullets()[i]).spawn_tick < BULLET_LIFETIME_TICKS,
            final(self).players() == old(self).players(),
            final(self).clients() == old(self).clients(),
            final(self).addresses() == old(self).addresses(),
            final(self).current_tick() == old(self).current_tick(),
            final(self).next_player_id() == old(self).next_player_id(),
            final(self).next_bullet_id() == old(self).next_bullet_id(),
    {
        let ghost bs = self.bullets@;
        let ghost flags = in_bounds@;
        let tick = self.current_tick;
        let n = self.bullets.len();
        let mut kept: Vec<BulletState> = Vec::new();
        let ghost mut origin: Seq<int> = Seq::empty();
        let mut i: usize = 0;
        while i < n
            invariant
                self.bullets@ == bs,
                self.current_tick == tick,
                old(self).wf(),
                *self == *old(self),
                n == bs.len(),
                flags == in_bounds@,
                flags.len() == n,
                0 <= i <= n,
                kept@ == surviving_bullets(bs.take(i as int), flags.take(i as int), tick),
                origin.len() == kept@.len(),
                forall|t: int| 0 <= t < origin.len() ==> 0 <= #[trigger] origin[t] < i && kept@[t] == bs[origin[t]],
                forall|t: int, u: int| 0 <= t < u < origin.len() ==> origin[t] < origin[u],
            decreases n - i,
        {
            let bullet = self.bullets[i];
            proof {
                assert(bs.take(i + 1).drop_last() =~= bs.take(i as int));
                assert(flags.take(i + 1).take(i as int) =~= flags.take(i as int));
            }
            if tick - bullet.spawn_tick < BULLET_LIFETIME_TICKS && in_bounds[i] {
                kept.push(bullet);
                proof {
                    origin = origin.push(i as int);
                }
            }
            i = i + 1;
        }
        proof {
            assert(bs.take(n as int) =~= bs);
            assert(flags.take(n as int) =~= flags);
        }
        let ghost survivors = kept@;
        let len = kept.len();
        if len > MAX_BULLETS {
            let mut capped: Vec<BulletState> = Vec::new();
            let start = len - MAX_BULLETS;
            let mut j: usize = start;
            while j < len
                invariant
                    kept@ == survivors,
                    len == survivors.len(),
                    start == len - MAX_BULLETS,
                    start <= j <= len,
                    capped@ == survivors.subrange(start as int, j as int),
                decreases len - j,
            {
                capped.push(kept[j]);
                proof {
                    assert(survivors.subrange(start as int, j + 1) =~= survivors.subrange(start as int, j as int).push(survivors[j as int]));
                }
                j = j + 1;
            }
            kept = capped;
        }
        self.bullets = kept;
        proof {
            assert forall|a: int, b: int| 0 <= a < b < self.bullets@.len() implies self.bullets@[a].id < self.bullets@[b].id by {
                let off: int = if len > MAX_BULLETS { len - MAX_BULLETS } else { 0 };
                assert(self.bullets@[a] == survivors[a + off]);
                assert(self.bullets@[b] == survivors[b + off]);
                assert(origin[a + off] < origin[b + off]);
            }
            assert forall|a: int| 0 <= a < self.bullets@.len() implies {
                &&& (#[trigger] self.bullets@[a]).id < self.next_bullet_id
                &&& self.bullets@[a].spawn_tick <= self.current_tick
                &&& self.bullets@[a].damage == BULLET_DAMAGE
            } by {
                let off: int = if len > MAX_BULLETS { len - MAX_BULLETS } else { 0 };
                assert(self.bullets@[a] == survivors[a + off]);
                assert(survivors[a + off] == bs[origin[a + off]]);
            }
            lemma_survivors_are_young(bs, flags, tick);
            assert forall|a: int| 0 <= a < self.bullets@.len() implies
                tick - (#[trigger] self.bullets@[a]).spawn_tick < BULLET_LIFETIME_TICKS by {
                let off: int = if len > MAX_BULLETS { len - MAX_BULLETS } else { 0 };
                assert(self.bullets@[a] == survivors[a + off]);
            }
        }
    }

    /// The entries of `positions` whose player is alive, in order.
    pub fn alive_positions<Q: Copy>(&self, positions: &Vec<(u64, Q)>) -> (kept: Vec<(u64, Q)>)
        ensures
            kept@ == alive_entries(positions@, self.players()),
    {
        let n = positions.len();
        let mut kept: Vec<(u64, Q)> = Vec::new();
        let mut i: usize = 0;
        while i < n
            invariant
                n == positions@.len(),
                0 <= i <= n,
                kept@ == alive_entries(positions@.take(i as int), self.players@),
            decreases n - i,
        {
            let entry = positions[i];
            proof {
                assert(positions@.take(i + 1).drop_last() =~= positions@.take(i as int));
                assert(positions@.take(i + 1).last() == positions@[i as int]);
            }
            match self.players.get(&entry.0) {
                Some(player) => {
                    if player.life == LifeState::Alive {
                        kept.push(entry);
                    }
                },
                None => {},
            }
            i = i + 1;
        }
        proof {
            assert(positions@.take(n as int) =~= positions@);
        }
        kept
    }

    /// Records in `lag`, for the current tick and stamped with the time the
    /// wall clock reads, the entries of `positions` whose player is alive; then `lag`
    /// forgets what is older than its history length (see
    /// `LagCompensator::record_tick`).
    pub fn record_alive_positions<Q: Copy>(&self, lag: &mut LagCompensator<Vec<(u64, Q)>>, positions: &Vec<(u64, Q)>)
        requires
            old(lag).wf(),
        ensures
            final(lag).wf(),
            exists|recorded_at: i128, now: i128, kept: Vec<(u64, Q)>, stamp: SystemTime, reading: SystemTime| {
                &&& kept@ == alive_entries(positions@, self.players())
                &&& recorded_at == wall_nanos(stamp)
                &&& now == wall_nanos(reading)
                &&& representable(recorded_at as int)
                &&& representable(now as int)
                &&& final(lag).history() == drop_older(
                    old(lag).history().push(
                        LagCompensatorSnapshot { time: recorded_at, tick: self.current_tick(), player_positions: kept },
                    ),
                    now - LAG_COMPENSATION_HISTORY_NANOS,
                )
            },
    {
        let kept = self.alive_positions(positions);
        let ghost recorded = kept;
        lag.record_tick(self.current_tick, kept);
        proof {
            let (recorded_at, now, stamp, reading) = choose|recorded_at: i128, now: i128, stamp: SystemTime, reading: SystemTime| {
                &&& recorded_at == wall_nanos(stamp)
                &&& now == wall_nanos(reading)
                &&& representable(recorded_at as int)
                &&& representable(now as int)
                &&& lag.history() == drop_older(
                    old(lag).history().push(
                        LagCompensatorSnapshot { time: recorded_at, tick: self.current_tick, player_positions: recorded },
                    ),
                    now - LAG_COMPENSATION_HISTORY_NANOS,
                )
            };
            assert({
                &&& recorded@ == alive_entries(positions@, self.players())
                &&& recorded_at == wall_nanos(stamp)
                &&& now == wall_nanos(reading)
                &&& representable(recorded_at as int)
                &&& representable(now as int)
                &&& lag.history() == drop_older(
                    old(lag).history().push(
                        LagCompensatorSnapshot { time: recorded_at, tick: self.current_tick(), player_positions: recorded },
                    ),
                    now - LAG_COMPENSATION_HISTORY_NANOS,
                )
            });
        }
    }

    /// Moves the server on to the next tick; the count stops at its largest
    /// value.  Everything else stays as it was.
    pub fn advance_tick(&mut self)
        requires
            old(self).wf(),
        ensures
            final(self).wf(),
            final(self).current_tick() == if old(self).current_tick() < u64::MAX {
                (old(self).current_tick() + 1) as u64
            } else {
                old(self).current_tick()
            },
            final(self).players() == old(self).players(),
            final(self).bullets() == old(self).bullets(),
            final(self).clients() == old(self).clients(),
            final(self).addresses() == old(self).addresses(),
            final(self).next_player_id() == old(self).next_player_id(),
            final(self).next_bullet_id() == old(self).next_bullet_id(),
    {
        if self.current_tick < u64::MAX {
            self.current_tick = self.current_tick + 1;
        }
    }

    /// The bullet in flight with id `id`, if any.
    fn find_bullet(&self, id: u64) -> (bullet: Option<BulletState>)
        requires
            self.wf(),
        ensures
            bullet == bullet_with_id(self.bullets(), id),
    {
        let n = self.bullets.len();
        let mut i: usize = 0;
        while i < n
            invariant
                self.wf(),
                n == self.bullets@.len(),
                0 <= i <= n,
                forall|j: int| 0 <= j < i ==> self.bullets@[j].id != id,
            decreases n - i,
        {
            if self.bullets[i].id == id {
                proof {
                    let k = choose|k: int| 0 <= k < self.bullets@.len() && self.bullets@[k].id == id;
                    if k < i {
                    } else if k > i {
                        assert(self.bullets@[i as int].id < self.bullets@[k].id);
                    }
                }
                return Some(self.bullets[i]);
            }
            i = i + 1;
        }
        None
    }

    /// Takes bullet `id` out of flight.
    fn remove_bullet(&mut self, id: u64)
        requires
            old(self).wf(),
        ensures
            final(self).wf(),
            final(self).bullets() == without_bullet(old(self).bullets(), id),
            final(self).players() == old(self).players(),
            final(self).clients() == old(self).clients(),
            final(self).addresses() == old(self).addresses(),
            final(self).current_tick() == old(self).current_tick(),
            final(self).next_player_id() == old(self).next_player_id(),
            final(self).next_bullet_id() == old(self).next_bullet_id(),
    {
        let ghost bs = self.bullets@;
        let n = self.bullets.len();
        let mut kept: Vec<BulletState> = Vec::new();
        let ghost mut origin: Seq<int> = Seq::empty();
        let mut i: usize = 0;
        while i < n
            invariant
                self.bullets@ == bs,
                old(self).wf(),
                *self == *old(self),
                n == bs.len(),
                0 <= i <= n,
                kept@ == without_bullet(bs.take(i as int), id),
                origin.len() == kept@.len(),
                forall|t: int| 0 <= t < origin.len() ==> 0 <= #[trigger] origin[t] < i && kept@[t] == bs[origin[t]],
                forall|t: int, u: int| 0 <= t < u < origin.len() ==> origin[t] < origin[u],
            decreases n - i,
        {
            let bullet = self.bullets[i];
            proof {
                assert(bs.take(i + 1).drop_last() =~= bs.take(i as int));
            }
            if bullet.id != id {
                kept.push(bullet);
                proof {
                    origin = origin.push(i as int);
                }
            }
            i = i + 1;
        }
        proof {
            assert(bs.take(n as int) =~= bs);
        }
        self.bullets = kept;
        proof {
            assert forall|a: int, b: int| 0 <= a < b < self.bullets@.len() implies self.bullets@[a].id < self.bullets@[b].id by {
                assert(origin[a] < origin[b]);
            }
            assert forall|a: int| 0 <= a < self.bullets@.len() implies {
                &&& (#[trigger] self.bullets@[a]).id < self.next_bullet_id
                &&& self.bullets@[a].spawn_tick <= self.current_tick
                &&& self.bullets@[a].damage == BULLET_DAMAGE
            } by {
                assert(self.bullets@[a] == bs[origin[a]]);
            }
        }
    }

    /// Lands the bullets on the players they overlap.  `overlaps` lists, in
    /// order, the (bullet id, player id) pairs whose shapes touch.  A pair
    /// is a hit when the bullet is in flight, the player is alive and the
    /// bullet is not the player's own, all as things stand before any hit
    /// lands; then the hits land one after the other, each taking its
    /// bullet out of flight and damaging its target even if an earlier hit
    /// already killed it.  Returns the deaths, in order.
    pub fn check_collisions(&mut self, overlaps: &Vec<(u64, u64)>) -> (kills: Vec<Kill>)
        requires
            old(self).wf(),
            kills_have_room(old(self).players(), old(self).bullets(), hits_of(old(self).bullets(), old(self).players(), overlaps@)),
        ensures
            final(self).wf(),
            ({
                let landed = after_hits(
                    old(self).players(),
                    old(self).bullets(),
                    hits_of(old(self).bullets(), old(self).players(), overlaps@),
                );
                &&& final(self).players() == landed.0
                &&& final(self).bullets() == landed.1
                &&& kills@ == landed.2
            }),
            final(self).clients() == old(self).clients(),
            final(self).addresses() == old(self).addresses(),
            final(self).current_tick() == old(self).current_tick(),
            final(self).next_player_id() == old(self).next_player_id(),
            final(self).next_bullet_id() == old(self).next_bullet_id(),
    {
        let ghost ps = self.players@;
        let ghost bs = self.bullets@;
        let m = overlaps.len();
        let mut hits: Vec<Hit> = Vec::new();
        let mut i: usize = 0;
        while i < m
            invariant
                *self == *old(self),
                self.wf(),
                ps == self.players@,
                bs == self.bullets@,
                m == overlaps@.len(),
                0 <= i <= m,
                hits@ == hits_of(bs, ps, overlaps@.take(i as int)),
                hits@.len() <= i,
                forall|t: int| 0 <= t < hits@.len() ==> (#[trigger] hits@[t]).damage == BULLET_DAMAGE,
            decreases m - i,
        {
            let (bullet_id, player_id) = overlaps[i];
            proof {
                assert(overlaps@.take(i + 1).drop_last() =~= overlaps@.take(i as int));
                assert(overlaps@.take(i + 1).last() == overlaps@[i as int]);
            }
            match self.find_bullet(bullet_id) {
                Some(bullet) => {
                    match self.players.get(&player_id) {
                        Some(player) => {
                            if player.life == LifeState::Alive && bullet.owner_id != player_id {
                                hits.push(Hit {
                                    bullet_id: bullet.id,
                                    target_id: player_id,
                                    shooter_id: bullet.owner_id,
                                    damage: bullet.damage,
                                });
                            }
                        },
                        None => {},
                    }
                },
                None => {},
            }
            i = i + 1;
        }
        proof {
            assert(overlaps@.take(m as int) =~= overlaps@);
        }
        let ghost all_hits = hits@;
        let h = hits.len();
        let mut kills: Vec<Kill> = Vec::new();
        let mut k: usize = 0;
        while k < h
            invariant
                self.wf(),
                hits@ == all_hits,
                h == all_hits.len(),
                h <= m,
                m == overlaps@.len(),
                0 <= k <= h,
                ({
                    let landed = after_hits(ps, bs, all_hits.take(k as int));
                    &&& self.players@ == landed.0
                    &&& self.bullets@ == landed.1
                    &&& kills@ == landed.2
                }),
                kills_have_room(ps, bs, all_hits),
                forall|t: int| 0 <= t < all_hits.len() ==> (#[trigger] all_hits[t]).damage == BULLET_DAMAGE,
                self.clients@ == old(self).clients@,
                self.addr_to_player_id@ == old(self).addr_to_player_id@,
                self.current_tick == old(self).current_tick,
                self.next_player_id == old(self).next_player_id,
                self.next_bullet_id == old(self).next_bullet_id,
            decreases h - k,
        {
            let hit = hits[k];
            proof {
                assert(all_hits.take(k + 1).drop_last() =~= all_hits.take(k as int));
                assert(all_hits.take(k + 1).last() == all_hits[k as int]);
                assert(credit_has_room(after_hits(ps, bs, all_hits.take(k as int)).0, all_hits[k as int]));
            }
            self.remove_bullet(hit.bullet_id);
            let kill = self.apply_hit(hit.target_id, hit.shooter_id, hit.damage);
            if let Some(kill) = kill {
                kills.push(kill);
            }
            k = k + 1;
        }
        proof {
            assert(all_hits.take(h as int) =~= all_hits);
        }
        kills
    }

    /// Drops every client that has been silent for longer than the client
    /// timeout, with its player, and returns their addresses.  How long each
    /// client has been silent is the clock's reading; whatever it reads, the
    /// clients dropped are the silent ones of one reading for each client,
    /// and they are exactly the ones returned.
    pub fn cleanup_disconnected_clients(&mut self) -> (removed: Vec<u64>)
        requires
            old(self).wf(),
        ensures
            exists|silences: Seq<(u64, u128)>|
                lists_each_client(old(self).clients(), silences) && removed@ == silent_addresses(silences),
            final(self).wf(),
            removed@.no_duplicates(),
            forall|t: int| 0 <= t < removed@.len() ==> old(self).clients().contains_key(#[trigger] removed@[t]),
            forall|a: u64| #[trigger] final(self).addresses().contains_key(a) <==> (
                old(self).addresses().contains_key(a) && !removed@.contains(a)),
            forall|a: u64| #[trigger] final(self).addresses().contains_key(a)
                ==> final(self).addresses()[a] == old(self).addresses()[a],
            forall|a: u64| #[trigger] final(self).clients().contains_key(a) <==> (
                old(self).clients().contains_key(a) && !removed@.contains(a)),
            forall|a: u64| #[trigger] final(self).clients().contains_key(a)
                ==> final(self).clients()[a] == old(self).clients()[a],
            forall|id: u64| #[trigger] final(self).players().contains_key(id) <==> (
                old(self).players().contains_key(id) && !reached_from(old(self).addresses(), removed@, id)),
            forall|id: u64| #[trigger] final(self).players().contains_key(id)
                ==> final(self).players()[id] == old(self).players()[id],
            final(self).bullets() == old(self).bullets(),
            final(self).current_tick() == old(self).current_tick(),
            final(self).next_player_id() == old(self).next_player_id(),
            final(self).next_bullet_id() == old(self).next_bullet_id(),
    {
        let keys = keys_of(&self.clients);
        let n = keys.len();
        let mut silences: Vec<(u64, u128)> = Vec::new();
        let mut i: usize = 0;
        while i < n
            invariant
                self.wf(),
                *self == *old(self),
                n == keys@.len(),
                keys@.no_duplicates(),
                keys@.to_set() == self.clients@.dom(),
                0 <= i <= n,
                silences@.len() == i,
                forall|t: int| 0 <= t < i ==> (#[trigger] silences@[t]).0 == keys@[t],
            decreases n - i,
        {
            let addr = keys[i];
            proof {
                assert(keys@.to_set().contains(keys@[i as int]));
            }
            match self.clients.get(&addr) {
                Some(client) => {
                    silences.push((addr, nanos_elapsed_since(&client.last_heard)));
                },
                None => {},
            }
            i = i + 1;
        }
        proof {
            assert forall|t: int| 0 <= t < silences@.len() implies
                old(self).clients().contains_key(#[trigger] silences@[t].0) by {
                assert(keys@.to_set().contains(keys@[t]));
            }
            assert forall|t: int, u: int| 0 <= t < u < silences@.len() implies
                silences@[t].0 != silences@[u].0 by {
                assert(keys@[t] != keys@[u]);
            }
            assert(silences@.map_values(|s: (u64, u128)| s.0) =~= keys@);
        }
        let ghost read = silences@;
        let removed = self.drop_silent_clients(&silences);
        proof {
            assert(lists_each_client(old(self).clients(), read) && removed@ == silent_addresses(read));
        }
        removed
    }

    /// Drops, with its player, each client in `silences` (address and
    /// nanoseconds since it was last heard from) that has been silent for
    /// longer than the client timeout, and returns their addresses in the
    /// order of `silences`.
    pub fn drop_silent_clients(&mut self, silences: &Vec<(u64, u128)>) -> (removed: Vec<u64>)
        requires
            old(self).wf(),
            forall|t: int| 0 <= t < silences@.len() ==> old(self).clients().contains_key(#[trigger] silences@[t].0),
            forall|t: int, u: int| 0 <= t < u < silences@.len() ==> silences@[t].0 != silences@[u].0,
        ensures
            removed@ == silent_addresses(silences@),
            final(self).wf(),
            removed@.no_duplicates(),
            forall|t: int| 0 <= t < removed@.len() ==> old(self).clients().contains_key(#[trigger] removed@[t]),
            forall|a: u64| #[trigger] final(self).addresses().contains_key(a) <==> (
                old(self).addresses().contains_key(a) && !removed@.contains(a)),
            forall|a: u64| #[trigger] final(self).addresses().contains_key(a)
                ==> final(self).addresses()[a] == old(self).addresses()[a],
            forall|a: u64| #[trigger] final(self).clients().contains_key(a) <==> (
                old(self).clients().contains_key(a) && !removed@.contains(a)),
            forall|a: u64| #[trigger] final(self).clients().contains_key(a)
                ==> final(self).clients()[a] == old(self).clients()[a],
            forall|id: u64| #[trigger] final(self).players().contains_key(id) <==> (
                old(self).players().contains_key(id) && !reached_from(old(self).addresses(), removed@, id)),
            forall|id: u64| #[trigger] final(self).players().contains_key(id)
                ==> final(self).players()[id] == old(self).players()[id],
            final(self).bullets() == old(self).bullets(),
            final(self).current_tick() == old(self).current_tick(),
            final(self).next_player_id() == old(self).next_player_id(),
            final(self).next_bullet_id() == old(self).next_bullet_id(),
    {
        let n = silences.len();
        let mut to_remove: Vec<u64> = Vec::new();
        let ghost mut origin: Seq<int> = Seq::empty();
        let mut i: usize = 0;
        while i < n
            invariant
                n == silences@.len(),
                0 <= i <= n,
                to_remove@ == silent_addresses(silences@.take(i as int)),
                origin.len() == to_remove@.len(),
                forall|t: int| 0 <= t < origin.len() ==> 0 <= #[trigger] origin[t] < i && to_remove@[t] == silences@[origin[t]].0,
                forall|t: int, u: int| 0 <= t < u < origin.len() ==> origin[t] < origin[u],
            decreases n - i,
        {
            let (addr, silence) = silences[i];
            proof {
                assert(silences@.take(i + 1).drop_last() =~= silences@.take(i as int));
                assert(silences@.take(i + 1).last() == silences@[i as int]);
            }
            if timed_out_after(silence) {
                to_remove.push(addr);
                proof {
                    origin = origin.push(i as int);
                }
            }
            i = i + 1;
        }
        proof {
            assert(silences@.take(n as int) =~= silences@);
            assert forall|t: int, u: int| 0 <= t < u < to_remove@.len() implies to_remove@[t] != to_remove@[u] by {
                assert(origin[t] < origin[u]);
            }
            assert forall|t: int| 0 <= t < to_remove@.len() implies old(self).clients().contains_key(#[trigger] to_remove@[t]) by {
                assert(old(self).clients().contains_key(silences@[origin[t]].0));
            }
        }
        let r = to_remove.len();
        let mut j: usize = 0;
        while j < r
            invariant
                self.wf(),
                r == to_remove@.len(),
                0 <= j <= r,
                to_remove@.no_duplicates(),
                forall|t: int| 0 <= t < r ==> old(self).clients().contains_key(#[trigger] to_remove@[t]),
                forall|a: u64| #[trigger] self.addr_to_player_id@.contains_key(a) <==> (
                    old(self).addresses().contains_key(a) && !to_remove@.take(j as int).contains(a)),
                forall|a: u64| #[trigger] self.addr_to_player_id@.contains_key(a)
                    ==> self.addr_to_player_id@[a] == old(self).addresses()[a],
                forall|a: u64| #[trigger] self.clients@.contains_key(a)
                    ==> self.clients@[a] == old(self).clients()[a],
                forall|id: u64| #[trigger] self.players@.contains_key(id) <==> (
                    old(self).players().contains_key(id) && !reached_from(old(self).addresses(), to_remove@.take(j as int), id)),
                forall|id: u64| #[trigger] self.players@.contains_key(id)
                    ==> self.players@[id] == old(self).players()[id],
                old(self).wf(),
                self.bullets@ == old(self).bullets(),
                self.current_tick == old(self).current_tick(),
                self.next_player_id == old(self).next_player_id(),
                self.next_bullet_id == old(self).next_bullet_id(),
            decreases r - j,
        {
            let addr = to_remove[j];
            proof {
                let prefix = to_remove@.take(j as int);
                let next = to_remove@.take(j + 1);
                assert(next =~= prefix.push(addr));
                assert(!prefix.contains(addr)) by {
                    if prefix.contains(addr) {
                        let t = choose|t: int| 0 <= t < prefix.len() && prefix[t] == addr;
                        assert(to_remove@[t] == to_remove@[j as int]);
                    }
                }
                assert(old(self).addresses().contains_key(addr)) by {
                    assert(old(self).clients().contains_key(addr));
                }
                assert(self.addr_to_player_id@.contains_key(addr));
                let pid = old(self).addresses()[addr];
                assert forall|id: u64| reached_from(old(self).addresses(), next, id) <==> (
                    reached_from(old(self).addresses(), prefix, id) || id == pid) by {
                    if reached_from(old(self).addresses(), next, id) {
                        let t = choose|t: int| 0 <= t < next.len() && #[trigger] old(self).addresses()[next[t]] == id;
                        if t < prefix.len() {
                            assert(old(self).addresses()[prefix[t]] == id);
                        }
                    }
                    if reached_from(old(self).addresses(), prefix, id) {
                        let t = choose|t: int| 0 <= t < prefix.len() && #[trigger] old(self).addresses()[prefix[t]] == id;
                        assert(old(self).addresses()[next[t]] == id);
                    }
                    if id == pid {
                        assert(old(self).addresses()[next[j as int]] == id);
                    }
                }
                assert forall|a: u64| #[trigger] next.contains(a) <==> (prefix.contains(a) || a == addr) by {
                    if next.contains(a) {
                        let t = choose|t: int| 0 <= t < next.len() && next[t] == a;
                        if t < prefix.len() {
                            assert(prefix[t] == a);
                        }
                    }
                    if prefix.contains(a) {
                        let t = choose|t: int| 0 <= t < prefix.len() && prefix[t] == a;
                        assert(next[t] == a);
                    }
                    if a == addr {
                        assert(next[j as int] == a);
                    }
                }
            }
            self.handle_disconnect(addr);
            j = j + 1;
        }
        proof {
            assert(to_remove@.take(r as int) =~= to_remove@);
            assert forall|a: u64| #[trigger] self.clients@.contains_key(a) <==> (
                old(self).clients().contains_key(a) && !to_remove@.contains(a)) by {
                assert(self.clients@.contains_key(a) <==> self.addr_to_player_id@.contains_key(a));
                assert(old(self).clients().contains_key(a) <==> old(self).addresses().contains_key(a));
            }
        }
        to_remove
    }

    /// Each connected address with the player it steers.
    pub fn viewers(&self) -> (viewers: Vec<(u64, u64)>)
        requires
            self.wf(),
        ensures
            viewers@.len() == self.addresses().len(),
            forall|t: int| 0 <= t < viewers@.len() ==> {
                &&& self.addresses().contains_key((#[trigger] viewers@[t]).0)
                &&& viewers@[t].1 == self.addresses()[viewers@[t].0]
                &&& self.players().contains_key(viewers@[t].1)
            },
            forall|t: int, u: int| 0 <= t < u < viewers@.len() ==> viewers@[t].0 != viewers@[u].0,
            forall|a: u64| #[trigger] self.addresses().contains_key(a)
                ==> exists|t: int| 0 <= t < viewers@.len() && viewers@[t].0 == a,
    {
        let keys = keys_of(&self.addr_to_player_id);
        let n = keys.len();
        let mut viewers: Vec<(u64, u64)> = Vec::new();
        let mut i: usize = 0;
        while i < n
            invariant
                self.wf(),
                n == keys@.len(),
                keys@.no_duplicates(),
                keys@.to_set() == self.addr_to_player_id@.dom(),
                0 <= i <= n,
                viewers@.len() == i,
                forall|t: int| 0 <= t < i ==> (#[trigger] viewers@[t]).0 == keys@[t]
                    && viewers@[t].1 == self.addr_to_player_id@[keys@[t]],
            decreases n - i,
        {
            let addr = keys[i];
            proof {
                assert(keys@.to_set().contains(keys@[i as int]));
            }
            let player_id = *self.addr_to_player_id.get(&addr).unwrap();
            viewers.push((addr, player_id));
            i = i + 1;
        }
        proof {
            assert forall|t: int| 0 <= t < viewers@.len() implies self.addr_to_player_id@.contains_key(
                (#[trigger] viewers@[t]).0) by {
                assert(keys@.to_set().contains(keys@[t]));
            }
            assert forall|a: u64| #[trigger] self.addr_to_player_id@.contains_key(a)
                implies exists|t: int| 0 <= t < viewers@.len() && viewers@[t].0 == a by {
                assert(keys@.to_set().contains(a));
                let t = choose|t: int| 0 <= t < keys@.len() && keys@[t] == a;
                assert(viewers@[t].0 == a);
            }
            assert(keys@.to_set().len() == keys@.len()) by {
                keys@.unique_seq_to_set();
            }
        }
        viewers
    }

    /// The scoreboard: the `SCOREBOARD_LENGTH` best players, best first.
    pub fn generate_scoreboard(&self) -> (board: Vec<ScoreEntry>)
        requires
            self.wf(),
        ensures
            is_scoreboard_of(board@, self.players()),
    {
        let keys = keys_of(&self.players);
        let n = keys.len();
        let mut entries: Vec<ScoreEntry> = Vec::new();
        let mut i: usize = 0;
        while i < n
            invariant
                self.wf(),
                n == keys@.len(),
                keys@.no_duplicates(),
                keys@.to_set() == self.players@.dom(),
                0 <= i <= n,
                entries@.len() == i,
                forall|t: int| 0 <= t < i ==> #[trigger] entries@[t] == entry_of(self.players@[keys@[t]]),
                forall|t: int| 0 <= t < i ==> self.players@.contains_key(#[trigger] keys@[t]),
            decreases n - i,
        {
            let id = keys[i];
            proof {
                assert(keys@.to_set().contains(keys@[i as int]));
            }
            let player = self.players.get(&id).unwrap();
            entries.push(ScoreEntry { player_id: player.id, player_name: player.name.clone(), score: player.score });
            i = i + 1;
        }
        proof {
            assert forall|a: int, b: int| 0 <= a < b < entries@.len() implies entries@[a].player_id != entries@[b].player_id by {
                assert(entries@[a].player_id == keys@[a]);
                assert(entries@[b].player_id == keys@[b]);
            }
        }
        let board = select_top_scores(&entries, SCOREBOARD_LENGTH);
        proof {
            assert(keys@.to_set().len() == keys@.len()) by {
                keys@.unique_seq_to_set();
            }
            assert(self.players@.dom().len() == self.players@.len());
            assert forall|t: int| 0 <= t < board@.len() implies {
                &&& self.players@.contains_key((#[trigger] board@[t]).player_id)
                &&& board@[t] == entry_of(self.players@[board@[t].player_id])
            } by {
                assert(entries@.contains(board@[t]));
                let j = choose|j: int| 0 <= j < entries@.len() && entries@[j] == board@[t];
                assert(entries@[j] == entry_of(self.players@[keys@[j]]));
            }
            assert forall|id: u64, t: int|
                #![trigger self.players@[id], board@[t]]
                self.players@.contains_key(id) && 0 <= t < board@.len() && !crate::scoreboard::on_board(board@, id)
                    implies self.players@[id].score <= board@[t].score by {
                assert(keys@.to_set().contains(id));
                let j = choose|j: int| 0 <= j < keys@.len() && keys@[j] == id;
                assert(entries@[j] == entry_of(self.players@[keys@[j]]));
            }
        }
        board
    }

    /// The ids of the players that are alive, each once.
    pub fn alive_players(&self) -> (ids: Vec<u64>)
        requires
            self.wf(),
        ensures
            ids@.no_duplicates(),
            forall|id: u64| ids@.contains(id) <==> (self.players().contains_key(id)
                && self.players()[id].life == LifeState::Alive),
    {
        let keys = keys_of(&self.players);
        let n = keys.len();
        let mut ids: Vec<u64> = Vec::new();
        let ghost mut origin: Seq<int> = Seq::empty();
        let mut i: usize = 0;
        while i < n
            invariant
                self.wf(),
                n == keys@.len(),
                keys@.no_duplicates(),
                keys@.to_set() == self.players@.dom(),
                0 <= i <= n,
                origin.len() == ids@.len(),
                forall|t: int| 0 <= t < origin.len() ==> 0 <= #[trigger] origin[t] < i && ids@[t] == keys@[origin[t]],
                forall|t: int, u: int| 0 <= t < u < origin.len() ==> origin[t] < origin[u],
                forall|j: int| 0 <= j < i ==> (ids@.contains(#[trigger] keys@[j]) <==> self.players@[keys@[j]].life == LifeState::Alive),
                forall|t: int| 0 <= t < ids@.len() ==> self.players@[#[trigger] ids@[t]].life == LifeState::Alive,
            decreases n - i,
        {
            let id = keys[i];
            proof {
                assert(keys@.to_set().contains(keys@[i as int]));
            }
            let player = self.players.get(&id).unwrap();
            let ghost before = ids@;
            if player.life == LifeState::Alive {
                ids.push(id);
                proof {
                    origin = origin.push(i as int);
                }
            }
            proof {
                assert forall|j: int| 0 <= j <= i implies (ids@.contains(#[trigger] keys@[j]) <==> self.players@[keys@[j]].life == LifeState::Alive) by {
                    if ids@.contains(keys@[j]) && j < i {
                        let t = choose|t: int| 0 <= t < ids@.len() && ids@[t] == keys@[j];
                        assert(self.players@[ids@[t]].life == LifeState::Alive);
                    }
                    if j < i && before.contains(keys@[j]) {
                        let t = choose|t: int| 0 <= t < before.len() && before[t] == keys@[j];
                        assert(ids@[t] == keys@[j]);
                    }
                    if j == i && self.players@[keys@[j]].life == LifeState::Alive {
                        assert(ids@[ids@.len() - 1] == keys@[j]);
                    }
                    if j == i && ids@.contains(keys@[j]) {
                        let t = choose|t: int| 0 <= t < ids@.len() && ids@[t] == keys@[j];
                        assert(self.players@[ids@[t]].life == LifeState::Alive);
                    }
                }
            }
            i = i + 1;
        }
        proof {
            assert forall|t: int, u: int| 0 <= t < u < ids@.len() implies ids@[t] != ids@[u] by {
                assert(origin[t] < origin[u]);
            }
            assert forall|id: u64| ids@.contains(id) <==> (self.players@.contains_key(id)
                && self.players@[id].life == LifeState::Alive) by {
                if ids@.contains(id) {
                    let t = choose|t: int| 0 <= t < ids@.len() && ids@[t] == id;
                    assert(keys@.to_set().contains(keys@[origin[t]]));
                }
                if self.players@.contains_key(id) {
                    assert(keys@.to_set().contains(id));
                    let j = choose|j: int| 0 <= j < keys@.len() && keys@[j] == id;
                    assert(ids@.contains(keys@[j]) <==> self.players@[keys@[j]].life == LifeState::Alive);
                }
            }
        }
        ids
    }

    /// Whether every score can still grow by `extra` without overflowing.
    pub fn scores_can_grow_by(&self, extra: u64) -> (ok: bool)
        requires
            self.wf(),
        ensures
            ok == forall|id: u64| #[trigger] self.players().contains_key(id)
                ==> self.players()[id].score + extra <= u64::MAX,
    {
        let keys = keys_of(&self.players);
        let n = keys.len();
        let mut i: usize = 0;
        while i < n
            invariant
                self.wf(),
                n == keys@.len(),
                keys@.to_set() == self.players@.dom(),
                0 <= i <= n,
                forall|j: int| 0 <= j < i ==> self.players@[#[trigger] keys@[j]].score + extra <= u64::MAX,
            decreases n - i,
        {
            let id = keys[i];
            proof {
                assert(keys@.to_set().contains(keys@[i as int]));
            }
            let player = self.players.get(&id).unwrap();
            if player.score > u64::MAX - extra {
                return false;
            }
            i = i + 1;
        }
        proof {
            assert forall|id: u64| #[trigger] self.players@.contains_key(id) implies self.players@[id].score + extra <= u64::MAX by {
                assert(keys@.to_set().contains(id));
                let j = choose|j: int| 0 <= j < keys@.len() && keys@[j] == id;
                assert(self.players@[keys@[j]].score + extra <= u64::MAX);
            }
        }
        true
    }

    /// Where the search for a free player id starts.
    pub fn player_id_cursor(&self) -> (id: u64)
        ensures
            id == self.next_player_id(),
    {
        self.next_player_id
    }

    /// The id the next bullet gets.
    pub fn bullet_id_cursor(&self) -> (id: u64)
        ensures
            id == self.next_bullet_id(),
    {
        self.next_bullet_id
    }

    /// The tick the server is at.
    pub fn tick_number(&self) -> (tick: u64)
        ensures
            tick == self.current_tick(),
    {
        self.current_tick
    }
}

/// A consistent world keeps each player under its own id with health
/// between zero and its maximum, holds at most `MAX_PLAYERS` players, files
/// every connected client in the address table and leads every address
/// there to a connected client and an existing player, never leads two
/// addresses to the same player, reaches every player from an address,
/// and keeps its bullets in increasing id order, each fired no later than
/// the current tick and dealing `BULLET_DAMAGE`.
pub proof fn law_world_bounds(server: GameServer)
    requires
        server.wf(),
    ensures
        server.players().len() <= MAX_PLAYERS,
        forall|id: u64| #[trigger] server.players().contains_key(id) ==> {
            &&& server.players()[id].id == id
            &&& 0 <= server.players()[id].health <= server.players()[id].max_health
        },
        forall|a: u64| #[trigger] server.clients().contains_key(a) ==> server.addresses().contains_key(a),
        forall|a: u64| #[trigger] server.addresses().contains_key(a) ==> {
            &&& server.clients().contains_key(a)
            &&& server.clients()[a].player_id == server.addresses()[a]
            &&& server.players().contains_key(server.addresses()[a])
        },
        forall|a: u64, b: u64|
            server.addresses().contains_key(a) && server.addresses().contains_key(b)
                && #[trigger] server.addresses()[a] == #[trigger] server.addresses()[b] ==> a == b,
        forall|id: u64| #[trigger] server.players().contains_key(id)
            ==> exists|a: u64| server.addresses().contains_key(a) && #[trigger] server.addresses()[a] == id,
        forall|i: int, j: int|
            0 <= i < j < server.bullets().len() ==> server.bullets()[i].id < server.bullets()[j].id,
        forall|i: int| 0 <= i < server.bullets().len() ==> {
            &&& (#[trigger] server.bullets()[i]).id < server.next_bullet_id()
            &&& server.bullets()[i].spawn_tick <= server.current_tick()
            &&& server.bullets()[i].damage == BULLET_DAMAGE
        },
{
    reveal(all_reached);
    assert forall|id: u64| #[trigger] server.players().contains_key(id)
        implies exists|a: u64| server.addresses().contains_key(a) && #[trigger] server.addresses()[a] == id by {
        assert(server.wf_but_health());
        assert(all_reached(server.players@.dom(), server.addr_to_player_id@));
        assert(server.players@.dom().contains(id));
        let a = choose|a: u64| server.addr_to_player_id@.contains_key(a) && #[trigger] server.addr_to_player_id@[a] == id;
        assert(server.addresses().contains_key(a) && server.addresses()[a] == id);
    }
}

/// A client that connects and then disconnects leaves the players, the
/// connections and the address table as they were.
pub proof fn law_connect_then_disconnect(
    before: GameServer,
    connected: GameServer,
    after: GameServer,
    addr: u64,
    player: PlayerState,
)
    requires
        before.wf(),
        accepted(before, connected, addr, player),
        disconnected(connected, after, addr),
    ensures
        after.players() == before.players(),
        after.addresses() == before.addresses(),
        after.clients() == before.clients(),
{
    let id = before.fresh_player_id();
    assert(!before.addresses().contains_key(addr));
    assert(after.players() =~= before.players());
    assert(after.addresses() =~= before.addresses());
    assert(after.clients() =~= before.clients()) by {
        assert(after.clients().dom() =~= before.clients().dom());
        assert forall|a: u64| #[trigger] after.clients().contains_key(a) implies after.clients()[a] == before.clients()[a] by {
            assert(a != addr);
        }
    }
}

/// A lethal hit leaves its target dead at zero health and credits the
/// shooter, if it is someone else and still present, with one point; a
/// hit that is not lethal only takes `damage` off the target's health.
pub proof fn law_hit_outcome(players: Map<u64, PlayerState>, target: u64, shooter: u64, damage: i32)
    requires
        players.contains_key(target),
        forall|id: u64| #[trigger] players.contains_key(id) ==> 0 <= players[id].health,
        0 <= damage,
        players.contains_key(shooter) ==> players[shooter].score < u64::MAX,
    ensures
        is_lethal(players, target, damage) ==> {
            &&& after_hit(players, target, shooter, damage)[target].life == LifeState::Dead
            &&& after_hit(players, target, shooter, damage)[target].health == 0
            &&& (shooter != target && players.contains_key(shooter)) ==> after_hit(
                players,
                target,
                shooter,
                damage,
            )[shooter].score == players[shooter].score + 1
        },
        !is_lethal(players, target, damage) ==> {
            &&& after_hit(players, target, shooter, damage)[target].health == players[target].health - damage
            &&& after_hit(players, target, shooter, damage)[target].life == players[target].life
            &&& after_hit(players, target, shooter, damage)[target].score == players[target].score
        },
{
    let hurt = players.insert(
        target,
        PlayerState { health: (players[target].health - damage) as i32, ..players[target] },
    );
    if is_lethal(players, target, damage) {
        let dead = hurt.insert(target, PlayerState { life: LifeState::Dead, health: 0, ..hurt[target] });
        assert(after_death(hurt, target, shooter) == (if dead.contains_key(shooter) {
            dead.insert(shooter, PlayerState { score: (dead[shooter].score + 1) as u64, ..dead[shooter] })
        } else {
            dead
        }));
        assert(after_hit(players, target, shooter, damage) == after_death(hurt, target, shooter));
        if shooter != target && players.contains_key(shooter) {
            assert(dead[shooter] == players[shooter]);
        }
    }
}

/// Hits never add or remove players: after any sequence of hits the same
/// players exist, and the bullets left are among those there were.
pub proof fn law_combat_keeps_roster(players: Map<u64, PlayerState>, bullets: Seq<BulletState>, hits: Seq<Hit>)
    ensures
        after_hits(players, bullets, hits).0.dom() == players.dom(),
        after_hits(players, bullets, hits).1.len() <= bullets.len(),
        forall|i: int| 0 <= i < after_hits(players, bullets, hits).1.len()
            ==> bullets.contains(#[trigger] after_hits(players, bullets, hits).1[i]),
    decreases hits.len(),
{
    if hits.len() > 0 {
        let before = after_hits(players, bullets, hits.drop_last());
        law_combat_keeps_roster(players, bullets, hits.drop_last());
        let h = hits.last();
        assert(after_hit(before.0, h.target_id, h.shooter_id, h.damage).dom() =~= before.0.dom());
        lemma_without_bullet_subset(before.1, h.bullet_id);
        assert forall|i: int| 0 <= i < after_hits(players, bullets, hits).1.len()
            implies bullets.contains(#[trigger] after_hits(players, bullets, hits).1[i]) by {
            let x = after_hits(players, bullets, hits).1[i];
            assert(before.1.contains(x));
            let j = choose|j: int| 0 <= j < before.1.len() && before.1[j] == x;
            assert(bullets.contains(before.1[j]));
        }
    }
}

/// A bullet fired at tick `k` is gone once the bullets are updated at tick
/// `k + BULLET_LIFETIME_TICKS` or later, whether or not it has left the
/// world.
pub proof fn law_bullet_lifetime(before: GameServer, in_bounds: Seq<bool>, after: Seq<BulletState>, bullet: BulletState)
    requires
        before.current_tick() >= bullet.spawn_tick + BULLET_LIFETIME_TICKS,
        after == newest(surviving_bullets(before.bullets(), in_bounds, before.current_tick()), MAX_BULLETS as nat),
    ensures
        !after.contains(bullet),
{
    let survivors = surviving_bullets(before.bullets(), in_bounds, before.current_tick());
    lemma_survivors_are_young(before.bullets(), in_bounds, before.current_tick());
    if after.contains(bullet) {
        let t = choose|t: int| 0 <= t < after.len() && after[t] == bullet;
        let off: int = if survivors.len() > MAX_BULLETS { survivors.len() - MAX_BULLETS } else { 0 };
        assert(after[t] == survivors[t + off]);
    }
}

/// What is recorded of a tick is the position of alive players only: each
/// recorded entry belongs to a player that is alive, and every entry of an
/// alive player is recorded.
pub proof fn law_alive_entries<Q>(positions: Seq<(u64, Q)>, players: Map<u64, PlayerState>)
    ensures
        forall|t: int| 0 <= t < alive_entries(positions, players).len() ==> {
            &&& players.contains_key((#[trigger] alive_entries(positions, players)[t]).0)
            &&& players[alive_entries(positions, players)[t].0].life == LifeState::Alive
            &&& positions.contains(alive_entries(positions, players)[t])
        },
        forall|t: int| 0 <= t < positions.len() && players.contains_key((#[trigger] positions[t]).0)
            && players[positions[t].0].life == LifeState::Alive ==> alive_entries(positions, players).contains(positions[t]),
    decreases positions.len(),
{
    if positions.len() > 0 {
        let front = positions.drop_last();
        law_alive_entries(front, players);
        let all = alive_entries(positions, players);
        let earlier = alive_entries(front, players);
        assert forall|t: int| 0 <= t < all.len() implies {
            &&& players.contains_key((#[trigger] all[t]).0)
            &&& players[all[t].0].life == LifeState::Alive
            &&& positions.contains(all[t])
        } by {
            if t < earlier.len() {
                assert(all[t] == earlier[t]);
                let k = choose|k: int| 0 <= k < front.len() && front[k] == earlier[t];
                assert(positions[k] == front[k]);
            } else {
                assert(positions[positions.len() - 1] == all[t]);
            }
        }
        assert forall|t: int| 0 <= t < positions.len() && players.contains_key((#[trigger] positions[t]).0)
            && players[positions[t].0].life == LifeState::Alive implies all.contains(positions[t]) by {
            if t < front.len() {
                assert(front[t] == positions[t]);
                let k = choose|k: int| 0 <= k < earlier.len() && earlier[k] == front[t];
                assert(all[k] == earlier[k]);
            } else {
                assert(all[all.len() - 1] == positions[t]);
            }
        }
    }
}

/// No hit among `overlaps` is counted twice: there are at most as many hits
/// as overlaps.
pub proof fn lemma_hits_at_most_overlaps(bullets: Seq<BulletState>, players: Map<u64, PlayerState>, overlaps: Seq<(u64, u64)>)
    ensures
        hits_of(bullets, players, overlaps).len() <= overlaps.len(),
    decreases overlaps.len(),
{
    if overlaps.len() > 0 {
        lemma_hits_at_most_overlaps(bullets, players, overlaps.drop_last());
    }
}

/// Landing `hits` one after the other keeps the same players and raises
/// each score by at most the number of hits.
pub proof fn lemma_scores_after_hits(players: Map<u64, PlayerState>, bullets: Seq<BulletState>, hits: Seq<Hit>)
    requires
        forall|id: u64| #[trigger] players.contains_key(id) ==> players[id].score + hits.len() <= u64::MAX,
    ensures
        after_hits(players, bullets, hits).0.dom() == players.dom(),
        forall|id: u64| #[trigger] players.contains_key(id)
            ==> after_hits(players, bullets, hits).0[id].score <= players[id].score + hits.len(),
    decreases hits.len(),
{
    if hits.len() > 0 {
        let front = hits.drop_last();
        lemma_scores_after_hits(players, bullets, front);
        let before = after_hits(players, bullets, front).0;
        let h = hits.last();
        assert forall|id: u64| #[trigger] before.contains_key(id) implies before[id].score < u64::MAX by {
            assert(players.contains_key(id));
        }
        lemma_after_hit_frame(before, h.target_id, h.shooter_id, h.damage);
        assert forall|id: u64| #[trigger] players.contains_key(id)
            implies after_hits(players, bullets, hits).0[id].score <= players[id].score + hits.len() by {
            assert(before.contains_key(id));
        }
    }
}

/// When every score can still grow by `n`, any `n` hits or fewer leave room
/// for every kill they make.
pub proof fn law_room_for_kills(players: Map<u64, PlayerState>, bullets: Seq<BulletState>, hits: Seq<Hit>, n: nat)
    requires
        hits.len() <= n,
        forall|id: u64| #[trigger] players.contains_key(id) ==> players[id].score + n <= u64::MAX,
    ensures
        kills_have_room(players, bullets, hits),
{
    assert forall|k: int| 0 <= k < hits.len()
        implies #[trigger] credit_has_room(after_hits(players, bullets, hits.take(k)).0, hits[k]) by {
        let prefix = hits.take(k);
        lemma_scores_after_hits(players, bullets, prefix);
        let before = after_hits(players, bullets, prefix).0;
        if before.contains_key(hits[k].shooter_id) {
            assert(players.contains_key(hits[k].shooter_id));
        }
    }
}

proof fn lemma_without_bullet_subset(bullets: Seq<BulletState>, id: u64)
    ensures
        without_bullet(bullets, id).len() <= bullets.len(),
        forall|i: int| 0 <= i < without_bullet(bullets, id).len()
            ==> bullets.contains(#[trigger] without_bullet(bullets, id)[i]),
        forall|i: int| 0 <= i < without_bullet(bullets, id).len()
            ==> (#[trigger] without_bullet(bullets, id)[i]).id != id,
    decreases bullets.len(),
{
    if bullets.len() > 0 {
        let rest = bullets.drop_last();
        lemma_without_bullet_subset(rest, id);
        assert forall|i: int| 0 <= i < without_bullet(bullets, id).len()
            implies bullets.contains(#[trigger] without_bullet(bullets, id)[i]) by {
            let x = without_bullet(bullets, id)[i];
            if i < without_bullet(rest, id).len() {
                assert(x == without_bullet(rest, id)[i]);
                let j = choose|j: int| 0 <= j < rest.len() && rest[j] == x;
                assert(bullets[j] == x);
            } else {
                assert(x == bullets.last());
                assert(bullets[bullets.len() - 1] == x);
            }
        }
        assert forall|i: int| 0 <= i < without_bullet(bullets, id).len()
            implies (#[trigger] without_bullet(bullets, id)[i]).id != id by {
            if i < without_bullet(rest, id).len() {
                assert(without_bullet(bullets, id)[i] == without_bullet(rest, id)[i]);
            }
        }
    }
}

} // verus!
