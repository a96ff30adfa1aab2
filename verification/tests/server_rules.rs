use deepspace::config::{BULLET_DAMAGE, BULLET_LIFETIME_TICKS, MAX_BULLETS, MAX_PLAYERS, PLAYER_MAX_HEALTH, SCOREBOARD_LENGTH};
use deepspace::protocol::{Kill, LifeState};
use deepspace::server::{ConnectReply, GameServer, RejectReason};
use deepspace::timeline::LagCompensator;
use std::time::{Duration, Instant};

fn accepted_id(reply: ConnectReply) -> u64 {
    match reply {
        ConnectReply::Accepted { player } => player.id,
        ConnectReply::Rejected { reason } => panic!("rejected: {}", reason.message()),
    }
}

#[test]
fn connect_assigns_fresh_ids_and_full_health() {
    let mut server = GameServer::new();
    match server.handle_connect(100, "alice".to_string()) {
        ConnectReply::Accepted { player } => {
            assert_eq!(player.id, 0);
            assert_eq!(player.name, "alice");
            assert_eq!(player.health, PLAYER_MAX_HEALTH);
            assert_eq!(player.max_health, 100);
            assert_eq!(player.score, 0);
            assert_eq!(player.life, LifeState::Alive);
            assert_eq!(player.last_processed_input, 0);
        }
        ConnectReply::Rejected { .. } => panic!("first player rejected"),
    }
    assert_eq!(accepted_id(server.handle_connect(101, "bob".to_string())), 1);
    assert_eq!(server.player(1).unwrap().name, "bob");
    assert_eq!(server.viewers().len(), 2);
}

#[test]
fn connect_twice_from_one_address_is_rejected() {
    let mut server = GameServer::new();
    accepted_id(server.handle_connect(7, "a".to_string()));
    match server.handle_connect(7, "again".to_string()) {
        ConnectReply::Rejected { reason } => {
            assert_eq!(reason, RejectReason::AlreadyConnected);
            assert_eq!(reason.message(), "Client already connected");
        }
        ConnectReply::Accepted { .. } => panic!("duplicate accepted"),
    }
    assert!(server.player(1).is_none());
}

#[test]
fn full_server_rejects() {
    let mut server = GameServer::new();
    for addr in 0..MAX_PLAYERS as u64 {
        accepted_id(server.handle_connect(addr, format!("p{}", addr)));
    }
    match server.handle_connect(5_000, "late".to_string()) {
        ConnectReply::Rejected { reason } => {
            assert_eq!(reason, RejectReason::ServerFull);
            assert_eq!(reason.message(), "Server full");
        }
        ConnectReply::Accepted { .. } => panic!("full server accepted"),
    }
    // Full wins over a duplicate address.
    match server.handle_connect(3, "dup".to_string()) {
        ConnectReply::Rejected { reason } => assert_eq!(reason, RejectReason::ServerFull),
        ConnectReply::Accepted { .. } => panic!("full server accepted"),
    }
}

#[test]
fn disconnect_removes_player_and_ids_move_on() {
    let mut server = GameServer::new();
    accepted_id(server.handle_connect(1, "a".to_string()));
    accepted_id(server.handle_connect(2, "b".to_string()));
    server.handle_disconnect(1);
    assert!(server.player(0).is_none());
    assert!(server.controllable_player(1).is_none());
    assert_eq!(server.controllable_player(2), Some(1));
    // The search starts at the last id handed out, which is taken, so the
    // next player gets the one after it; id 0 is not reused.
    assert_eq!(accepted_id(server.handle_connect(1, "c".to_string())), 2);
    // Disconnecting an unknown address changes nothing.
    server.handle_disconnect(99);
    assert_eq!(server.viewers().len(), 2);
}

#[test]
fn connect_then_disconnect_restores_roster() {
    let mut server = GameServer::new();
    accepted_id(server.handle_connect(1, "a".to_string()));
    accepted_id(server.handle_connect(2, "b".to_string()));
    server.handle_disconnect(2);
    let mut viewers = server.viewers();
    viewers.sort();
    assert_eq!(viewers, vec![(1, 0)]);
}

#[test]
fn instant_hit_damages_and_kills() {
    let mut server = GameServer::new();
    let shooter = accepted_id(server.handle_connect(1, "s".to_string()));
    let target = accepted_id(server.handle_connect(2, "t".to_string()));
    for shot in 0..4u64 {
        let outcome = server.fire(shooter, Some(target));
        assert!(outcome.bullet.is_none());
        assert!(outcome.kill.is_none());
        assert_eq!(server.bullet_id_cursor(), shot + 1);
    }
    assert_eq!(server.player(target).unwrap().health, PLAYER_MAX_HEALTH - 4 * BULLET_DAMAGE);
    let outcome = server.fire(shooter, Some(target));
    assert_eq!(outcome.kill, Some(Kill { victim: target, killer: shooter }));
    let victim = server.player(target).unwrap();
    assert_eq!(victim.health, 0);
    assert_eq!(victim.life, LifeState::Dead);
    assert_eq!(server.player(shooter).unwrap().score, 1);
    assert!(server.controllable_player(2).is_none());
    // A dead target hit again dies again and credits the shooter again.
    let outcome = server.fire(shooter, Some(target));
    assert_eq!(outcome.kill, Some(Kill { victim: target, killer: shooter }));
    assert_eq!(server.player(shooter).unwrap().score, 2);
    // Respawning restores health and clears the score.
    server.respawn(target);
    let back = server.player(target).unwrap();
    assert_eq!(back.health, PLAYER_MAX_HEALTH);
    assert_eq!(back.life, LifeState::Alive);
    assert_eq!(back.score, 0);
}

#[test]
fn missed_shot_puts_bullet_in_flight() {
    let mut server = GameServer::new();
    let shooter = accepted_id(server.handle_connect(1, "s".to_string()));
    let outcome = server.fire(shooter, None);
    let bullet = outcome.bullet.expect("bullet in flight");
    assert_eq!(bullet.id, 0);
    assert_eq!(bullet.owner_id, shooter);
    assert_eq!(bullet.spawn_tick, 0);
    assert_eq!(bullet.damage, BULLET_DAMAGE);
    assert_eq!(server.bullet_states().len(), 1);
    // A shooter that is gone fires nothing and uses up no id.
    let outcome = server.fire(42, None);
    assert!(outcome.bullet.is_none());
    assert_eq!(server.bullet_id_cursor(), 1);
    // A hit on a player that is gone uses up an id and leaves no bullet.
    let outcome = server.fire(shooter, Some(42));
    assert!(outcome.bullet.is_none() && outcome.kill.is_none());
    assert_eq!(server.bullet_id_cursor(), 2);
    assert_eq!(server.bullet_states().len(), 1);
}

#[test]
fn collisions_skip_owner_and_dead_and_land_in_order() {
    let mut server = GameServer::new();
    let a = accepted_id(server.handle_connect(1, "a".to_string()));
    let b = accepted_id(server.handle_connect(2, "b".to_string()));
    let c = accepted_id(server.handle_connect(3, "c".to_string()));
    let from_a = server.fire(a, None).bullet.unwrap().id;
    let from_c = server.fire(c, None).bullet.unwrap().id;
    // The bullet of `a` overlaps `a` itself and `b`; the bullet of `c`
    // overlaps `b` too, and an unknown bullet overlaps `c`.
    let kills = server.check_collisions(&vec![(from_a, a), (from_a, b), (from_c, b), (77, c)]);
    assert!(kills.is_empty());
    assert_eq!(server.player(a).unwrap().health, PLAYER_MAX_HEALTH);
    assert_eq!(server.player(b).unwrap().health, PLAYER_MAX_HEALTH - 2 * BULLET_DAMAGE);
    assert_eq!(server.player(c).unwrap().health, PLAYER_MAX_HEALTH);
    assert!(server.bullet_states().is_empty());
}

#[test]
fn collision_kill_credits_the_bullet_owner() {
    let mut server = GameServer::new();
    let a = accepted_id(server.handle_connect(1, "a".to_string()));
    let b = accepted_id(server.handle_connect(2, "b".to_string()));
    for _ in 0..4 {
        server.fire(a, Some(b));
    }
    let bullet = server.fire(a, None).bullet.unwrap().id;
    let kills = server.check_collisions(&vec![(bullet, b)]);
    assert_eq!(kills, vec![Kill { victim: b, killer: a }]);
    assert_eq!(server.player(a).unwrap().score, 1);
    // A dead player is not hit.
    let again = server.fire(a, None).bullet.unwrap().id;
    let kills = server.check_collisions(&vec![(again, b)]);
    assert!(kills.is_empty());
    assert_eq!(server.bullet_states().len(), 1);
}

#[test]
fn bullets_leave_when_out_of_bounds() {
    let mut server = GameServer::new();
    let a = accepted_id(server.handle_connect(1, "a".to_string()));
    for _ in 0..3 {
        server.fire(a, None);
    }
    server.update_bullets(&vec![true, false, true]);
    let ids: Vec<u64> = server.bullet_states().iter().map(|b| b.id).collect();
    assert_eq!(ids, vec![0, 2]);
    assert!(server.bullet_states().len() <= MAX_BULLETS);
}

#[test]
fn scoreboard_keeps_the_best_first() {
    let mut server = GameServer::new();
    for addr in 0..12u64 {
        accepted_id(server.handle_connect(addr, format!("p{}", addr)));
    }
    // Player 11 kills player 0 once, player 10 kills players 1 and 2.
    for _ in 0..5 {
        server.fire(11, Some(0));
        server.fire(10, Some(1));
        server.fire(10, Some(2));
    }
    let board = server.generate_scoreboard();
    assert_eq!(board.len(), SCOREBOARD_LENGTH);
    assert_eq!(board[0].player_id, 10);
    assert_eq!(board[0].score, 2);
    assert_eq!(board[0].player_name, "p10");
    assert_eq!(board[1].player_id, 11);
    assert_eq!(board[1].score, 1);
    for entry in &board[2..] {
        assert_eq!(entry.score, 0);
    }
}

#[test]
fn controllable_only_when_connected_and_alive() {
    let mut server = GameServer::new();
    let a = accepted_id(server.handle_connect(1, "a".to_string()));
    assert_eq!(server.controllable_player(1), Some(a));
    assert_eq!(server.controllable_player(2), None);
    server.record_processed_input(a, 17);
    assert_eq!(server.player(a).unwrap().last_processed_input, 17);
    server.update_last_heard(1);
    assert!(server.cleanup_disconnected_clients().is_empty());
    assert_eq!(server.alive_players(), vec![a]);
    assert!(server.scores_can_grow_by(10));
}

#[test]
fn silent_clients_are_dropped_with_their_players() {
    let mut server = GameServer::new();
    let a = accepted_id(server.handle_connect(1, "a".to_string()));
    let b = accepted_id(server.handle_connect(2, "b".to_string()));
    let c = accepted_id(server.handle_connect(3, "c".to_string()));
    let removed = server.drop_silent_clients(&vec![(1, 20_000_000_000), (2, 10_000_000_000), (3, 10_000_000_001)]);
    assert_eq!(removed, vec![1, 3]);
    assert!(server.player(a).is_none());
    assert!(server.player(b).is_some());
    assert!(server.player(c).is_none());
    assert_eq!(server.controllable_player(1), None);
    assert_eq!(server.controllable_player(2), Some(b));
    assert_eq!(server.viewers(), vec![(2, b)]);
}

#[test]
fn a_client_last_heard_long_ago_times_out() {
    let mut server = GameServer::new();
    let a = accepted_id(server.handle_connect(1, "a".to_string()));
    let b = accepted_id(server.handle_connect(2, "b".to_string()));
    let long_ago = Instant::now().checked_sub(Duration::from_secs(60)).unwrap();
    server.update_last_heard_at(1, long_ago);
    server.update_last_heard_at(9, long_ago);
    assert_eq!(server.cleanup_disconnected_clients(), vec![1]);
    assert!(server.player(a).is_none());
    assert_eq!(server.controllable_player(2), Some(b));
    server.update_last_heard_at(2, long_ago);
    server.update_last_heard(2);
    assert!(server.cleanup_disconnected_clients().is_empty());
    assert_eq!(server.controllable_player(2), Some(b));
}

#[test]
fn bullets_expire_after_their_lifetime() {
    let mut server = GameServer::new();
    let a = accepted_id(server.handle_connect(1, "a".to_string()));
    assert_eq!(server.tick_number(), 0);
    let fired = server.fire(a, None).bullet.unwrap();
    assert_eq!(fired.spawn_tick, 0);
    for _ in 0..BULLET_LIFETIME_TICKS - 1 {
        server.advance_tick();
        server.update_bullets(&vec![true]);
    }
    assert_eq!(server.tick_number(), BULLET_LIFETIME_TICKS - 1);
    assert_eq!(server.bullet_states().len(), 1);
    let later = server.fire(a, None).bullet.unwrap();
    assert_eq!(later.spawn_tick, BULLET_LIFETIME_TICKS - 1);
    server.advance_tick();
    assert_eq!(server.tick_number(), BULLET_LIFETIME_TICKS);
    server.update_bullets(&vec![true, true]);
    assert_eq!(server.bullet_states().to_vec(), vec![later]);
}

#[test]
fn only_alive_players_are_recorded_for_rewinding() {
    let mut server = GameServer::new();
    let a = accepted_id(server.handle_connect(1, "a".to_string()));
    let b = accepted_id(server.handle_connect(2, "b".to_string()));
    for _ in 0..5 {
        server.fire(a, Some(b));
    }
    assert_eq!(server.player(b).unwrap().life, LifeState::Dead);
    let positions: Vec<(u64, f32)> = vec![(b, 2.5), (a, 1.5), (9, 3.5)];
    assert_eq!(server.alive_positions(&positions), vec![(a, 1.5)]);
    server.advance_tick();
    let mut lag: LagCompensator<Vec<(u64, f32)>> = LagCompensator::new();
    server.record_alive_positions(&mut lag, &positions);
    assert_eq!(lag.len(), 1);
    assert_eq!(lag.snapshot(0).tick, 1);
    assert_eq!(lag.snapshot(0).player_positions, vec![(a, 1.5)]);
}

#[test]
fn connecting_needs_room_in_the_id_range_only_for_a_new_id() {
    let mut server = GameServer::new();
    assert!(server.connect_fits(1));
    accepted_id(server.handle_connect(1, "a".to_string()));
    assert!(server.connect_fits(1));
    assert!(server.connect_fits(2));
    assert_eq!(server.player_id_cursor(), 0);
    accepted_id(server.handle_connect(2, "b".to_string()));
    assert_eq!(server.player_id_cursor(), 1);
}
