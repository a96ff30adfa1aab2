use deepspace::client::{ClientSession, SessionError};
use deepspace::clock::{signed_nanos, time_nanos, MAX_DURATION_NANOS};
use deepspace::config::{
    BULLET_LIFETIME_TICKS, CLIENT_TIMEOUT_NANOS, PREDICTION_CAPACITY, SNAPSHOT_INTERVAL_NANOS, TICK_DURATION_NANOS,
};
use deepspace::connection::{timed_out_after, ClientConnection};
use deepspace::order::input_order;
use deepspace::prediction::PredictionState;
use deepspace::protocol::{MoveDirection, ScoreEntry};
use deepspace::scoreboard::select_top_scores;
use deepspace::timeline::{Frame, InterpolationBuffer, LagCompensator};
use std::time::{Duration, SystemTime, UNIX_EPOCH};

#[test]
fn settings() {
    assert_eq!(TICK_DURATION_NANOS, 1_000_000_000 / 60);
    assert_eq!(SNAPSHOT_INTERVAL_NANOS, 50_000_000);
    assert_eq!(BULLET_LIFETIME_TICKS, 180);
}

#[test]
fn timeout_is_strictly_longer_than_ten_seconds() {
    assert!(!timed_out_after(CLIENT_TIMEOUT_NANOS));
    assert!(timed_out_after(CLIENT_TIMEOUT_NANOS + 1));
    assert!(!timed_out_after(0));
    let conn = ClientConnection::new(7);
    assert_eq!(conn.player_id, 7);
    assert!(!conn.is_timed_out());
}

#[test]
fn touching_a_connection_sets_when_it_was_heard() {
    let mut conn = ClientConnection::new(7);
    let later = conn.last_heard + Duration::from_secs(3);
    conn.touch_at(later);
    assert_eq!(conn.player_id, 7);
    assert_eq!(conn.last_heard, later);
    let earlier = conn.last_heard.checked_sub(Duration::from_secs(30)).unwrap();
    conn.touch_at(earlier);
    assert!(conn.is_timed_out());
    conn.touch();
    assert_eq!(conn.player_id, 7);
    assert!(!conn.is_timed_out());
}

#[test]
fn wall_clock_offsets() {
    assert_eq!(signed_nanos(Ok(5)), 5);
    assert_eq!(signed_nanos(Err(5)), -5);
    assert_eq!(time_nanos(&UNIX_EPOCH), 0);
    assert_eq!(time_nanos(&(UNIX_EPOCH + Duration::from_secs(5))), 5_000_000_000);
    assert_eq!(time_nanos(&(UNIX_EPOCH - Duration::from_millis(1))), -1_000_000);
    let now = time_nanos(&SystemTime::now());
    assert!(now > 0 && (now as u128) <= MAX_DURATION_NANOS);
}

#[test]
fn move_direction_factors() {
    assert_eq!(MoveDirection::Forward.speed_factor(), 1);
    assert_eq!(MoveDirection::Backward.speed_factor(), -1);
    assert_eq!(MoveDirection::Still.speed_factor(), 0);
}

fn entry(id: u64, score: u64) -> ScoreEntry {
    ScoreEntry { player_id: id, player_name: format!("p{}", id), score }
}

#[test]
fn top_scores_best_first_and_ties_keep_earlier() {
    let entries = vec![entry(1, 5), entry(2, 9), entry(3, 5), entry(4, 1)];
    let board = select_top_scores(&entries, 2);
    let ids: Vec<u64> = board.iter().map(|e| e.player_id).collect();
    assert_eq!(ids, vec![2, 1]);
    let all = select_top_scores(&entries, 10);
    let ids: Vec<u64> = all.iter().map(|e| e.player_id).collect();
    assert_eq!(ids, vec![2, 1, 3, 4]);
    assert!(select_top_scores(&entries, 0).is_empty());
}

#[test]
fn inputs_sorted_stably_by_sequence() {
    assert_eq!(input_order(&vec![5, 3, 5, 1, 3]), vec![3, 1, 4, 0, 2]);
    assert!(input_order(&vec![]).is_empty());
}

#[test]
fn prediction_buffer_full_drops_oldest() {
    let mut prediction: PredictionState<&str> = PredictionState::new();
    for seq in 0..PREDICTION_CAPACITY as u64 {
        prediction.push_prediction(seq, "x");
    }
    assert_eq!(prediction.len(), PREDICTION_CAPACITY);
    assert_eq!(prediction.pending_input(0).sequence, 59);
    assert_eq!(prediction.pending_input(59).sequence, 0);
    prediction.push_prediction(60, "y");
    assert_eq!(prediction.len(), PREDICTION_CAPACITY);
    assert_eq!(prediction.pending_input(0).sequence, 60);
    assert_eq!(prediction.pending_input(0).input, "y");
    assert_eq!(prediction.pending_input(1).sequence, 59);
    assert_eq!(prediction.pending_input(59).sequence, 1);
    prediction.acknowledge(49);
    assert_eq!(prediction.len(), 11);
    assert_eq!(prediction.pending_input(10).sequence, 50);
    prediction.acknowledge(49);
    assert_eq!(prediction.len(), 11);
    prediction.clear();
    assert_eq!(prediction.len(), 0);
}

#[test]
fn rewind_picks_frames() {
    let mut lag: LagCompensator<&str> = LagCompensator::new();
    assert_eq!(lag.rewind_to_time(0), Frame::Empty);
    lag.record_tick_at(1, "a", 1_000, 1_000);
    assert_eq!(lag.rewind_to_time(0), Frame::At(0));
    lag.record_tick_at(2, "b", 2_000, 2_000);
    lag.record_tick_at(3, "c", 4_000, 4_000);
    assert_eq!(lag.rewind_to_time(2_000), Frame::At(1));
    assert_eq!(lag.rewind_to_time(500), Frame::At(0));
    assert_eq!(lag.rewind_to_time(9_000), Frame::At(2));
    assert_eq!(
        lag.rewind_to_time(3_000),
        Frame::Between { from: 1, to: 2, elapsed_nanos: 1_000, total_nanos: 2_000 }
    );
    assert_eq!(*lag.snapshot(2).player_positions, *"c");
    assert_eq!(lag.snapshot(2).tick, 3);
}

#[test]
fn history_forgets_old_ticks() {
    let mut lag: LagCompensator<u8> = LagCompensator::new();
    lag.record_tick_at(1, 1, 0, 0);
    lag.record_tick_at(2, 2, 1_000_000_000, 1_000_000_000);
    lag.record_tick_at(3, 3, 5_500_000_000, 5_500_000_000);
    assert_eq!(lag.len(), 2);
    assert_eq!(lag.snapshot(0).tick, 2);
}

#[test]
fn interpolation_frames_and_pruning() {
    let mut buffer: InterpolationBuffer<u32> = InterpolationBuffer::new();
    assert_eq!(buffer.interpolate_at(0), Frame::Empty);
    buffer.push_snapshot_at(10, 100_000_000);
    assert_eq!(buffer.interpolate_at(100_000_000), Frame::At(0));
    buffer.push_snapshot_at(11, 150_000_000);
    buffer.push_snapshot_at(12, 200_000_000);
    assert_eq!(buffer.len(), 3);
    // Render time 175 ms lies between the second and third snapshot.
    assert_eq!(
        buffer.interpolate_at(225_000_000),
        Frame::Between { from: 1, to: 2, elapsed_nanos: 25_000_000, total_nanos: 50_000_000 }
    );
    // Render time 300 ms lies past the newest.
    assert_eq!(buffer.interpolate_at(350_000_000), Frame::At(2));
    // At 260 ms the first snapshot is 160 ms old and is dropped.
    buffer.push_snapshot_at(13, 260_000_000);
    assert_eq!(buffer.len(), 3);
    assert_eq!(*buffer.snapshot(0), 11);
    buffer.clear();
    assert_eq!(buffer.len(), 0);
}

#[test]
fn session_guards_and_resets() {
    let mut session: ClientSession<u8, u8> = ClientSession::new();
    assert_eq!(session.check_can_connect(), Ok(()));
    assert_eq!(session.check_connected(), Err(SessionError::NotConnected));
    assert_eq!(session.next_input(), Err(SessionError::NotConnected));
    assert_eq!(SessionError::NotConnected.message(), "Client not connected yet");
    session.handle_connection_accepted(4);
    assert!(session.connected());
    assert_eq!(session.player_id(), Some(4));
    assert_eq!(session.check_can_connect(), Err(SessionError::AlreadyConnected));
    assert_eq!(SessionError::AlreadyConnected.message(), "Client already connected");
    assert_eq!(session.next_input(), Ok(0));
    assert_eq!(session.next_input(), Ok(1));
    session.record_input(0, 9);
    session.record_input(1, 8);
    session.acknowledge(0);
    assert_eq!(session.prediction().len(), 1);
    assert!(session.is_other(5));
    assert!(!session.is_other(4));
    session.buffer_snapshot(1);
    assert_eq!(session.interpolation_buffer().len(), 1);
    session.handle_disconnect();
    assert!(!session.connected());
    assert_eq!(session.player_id(), None);
    assert_eq!(session.prediction().len(), 0);
    assert_eq!(session.interpolation_buffer().len(), 0);
    session.handle_connection_accepted(4);
    assert_eq!(session.next_input(), Ok(0));
}
