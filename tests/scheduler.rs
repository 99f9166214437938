use bit_swap_core::scheduler::{PieceScheduler, SelectionStrategy};

#[test]
fn sequential_picks_lowest_needed_index() {
    let s = PieceScheduler::new(SelectionStrategy::Sequential);
    assert_eq!(s.select_piece(&[7, 3, 9, 1], &[1]), Some(3));
    assert_eq!(s.select_piece(&[1, 2], &[1, 2]), None);
    assert_eq!(s.select_piece(&[], &[]), None);
}

#[test]
fn rarest_first_picks_minimum_count_then_lowest_index() {
    let mut s = PieceScheduler::default();
    assert_eq!(s.strategy(), SelectionStrategy::RarestFirst);
    s.update_peer_pieces(1, &[0, 1, 2, 3]);
    s.update_peer_pieces(2, &[0, 1, 3]);
    s.update_peer_pieces(3, &[0, 3]);
    assert_eq!(s.availability(0), 3);
    assert_eq!(s.availability(2), 1);
    assert_eq!(s.availability(9), 0);
    assert_eq!(s.select_piece(&[3, 2, 1, 0], &[]), Some(2));
    assert_eq!(s.select_piece(&[3, 1, 0], &[]), Some(1));
    s.update_peer_pieces(4, &[1]);
    assert_eq!(s.select_piece(&[3, 1, 0], &[]), Some(0));
    s.update_peer_pieces(5, &[1]);
    assert_eq!(s.select_piece(&[3, 1, 0], &[0]), Some(3));
    assert_eq!(s.select_piece(&[7, 5], &[]), Some(5));
}

#[test]
fn random_picks_a_needed_advertised_piece() {
    let s = PieceScheduler::new(SelectionStrategy::Random);
    for _ in 0..50 {
        let p = s.select_piece(&[4, 5, 6, 7], &[5, 7]).unwrap();
        assert!(p == 4 || p == 6);
    }
    assert_eq!(s.select_piece(&[5], &[5]), None);
}

#[test]
fn requests_are_tracked_per_peer() {
    let mut s = PieceScheduler::new(SelectionStrategy::Sequential);
    s.request_piece(1, 10);
    s.request_piece(1, 10);
    s.request_piece(2, 10);
    assert!(s.is_requested(1, 10));
    assert!(s.is_requested(2, 10));
    s.complete_piece(1, 10);
    assert!(!s.is_requested(1, 10));
    assert!(s.is_requested(2, 10));
    s.complete_piece(1, 10);
    assert!(!s.is_requested(1, 10));
}

#[test]
fn disconnect_releases_requests_and_availability() {
    let mut s = PieceScheduler::new(SelectionStrategy::RarestFirst);
    s.update_peer_pieces(1, &[0, 1]);
    s.update_peer_pieces(2, &[1]);
    s.request_piece(1, 0);
    s.request_piece(1, 1);
    s.request_piece(2, 1);
    s.peer_disconnected(1);
    assert_eq!(s.availability(0), 0);
    assert_eq!(s.availability(1), 1);
    assert!(!s.is_requested(1, 0));
    assert!(!s.is_requested(1, 1));
    assert!(s.is_requested(2, 1));
    s.peer_disconnected(3);
    assert_eq!(s.availability(5), 0);
    s.peer_disconnected(2);
    assert_eq!(s.availability(1), 0);
}

#[test]
fn a_peer_counts_once_per_piece() {
    let mut s = PieceScheduler::default();
    s.update_peer_pieces(7, &[2, 2, 3]);
    s.update_peer_pieces(7, &[2]);
    assert_eq!(s.availability(2), 1);
    assert_eq!(s.availability(3), 1);
    s.update_peer_pieces(8, &[3]);
    assert_eq!(s.availability(3), 2);
    s.peer_disconnected(7);
    assert_eq!(s.availability(2), 0);
    assert_eq!(s.availability(3), 1);
}
