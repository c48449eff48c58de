use r_torrent::peers::{PeerPool, SpawnStep};
use r_torrent::tracker::peer_list_helper;

#[test]
fn peers_wait_first_come_first() {
    let mut pool = PeerPool::new();
    pool.enqueue((3, 1));
    pool.enqueue((1, 1));
    pool.enqueue((2, 1));
    assert_eq!(pool.pending_len(), 3);
    assert!(matches!(pool.next_peer(1), SpawnStep::Connect((3, 1))));
    assert!(matches!(pool.next_peer(1), SpawnStep::Connect((1, 1))));
    assert!(matches!(pool.next_peer(1), SpawnStep::Connect((2, 1))));
    assert!(matches!(pool.next_peer(1), SpawnStep::Wait));
}

#[test]
fn a_peer_waits_once_and_not_while_connected() {
    let mut pool = PeerPool::new();
    pool.enqueue((1, 1));
    pool.enqueue((1, 1));
    pool.enqueue((1, 2));
    assert_eq!(pool.pending_len(), 2);
    assert!(pool.connected((9, 9)));
    pool.enqueue((9, 9));
    assert_eq!(pool.pending_len(), 2);
    assert_eq!(pool.connected_len(), 1);
    assert!(pool.is_connected((9, 9)));
    assert!(!pool.is_connected((1, 1)));
}

#[test]
fn a_connected_peer_waits_no_longer() {
    let mut pool = PeerPool::new();
    pool.enqueue((1, 1));
    pool.enqueue((2, 2));
    pool.enqueue((3, 3));
    assert!(pool.connected((2, 2)));
    assert_eq!(pool.pending_len(), 2);
    assert!(!pool.connected((2, 2)));
    assert_eq!(pool.connected_len(), 1);
    assert!(matches!(pool.next_peer(1), SpawnStep::Connect((1, 1))));
    assert!(matches!(pool.next_peer(1), SpawnStep::Connect((3, 3))));
}

#[test]
fn a_disconnected_peer_may_wait_again() {
    let mut pool = PeerPool::new();
    assert!(pool.connected((1, 1)));
    assert!(pool.connected((2, 2)));
    pool.disconnected((1, 1));
    pool.disconnected((7, 7));
    assert_eq!(pool.connected_len(), 1);
    assert!(!pool.is_connected((1, 1)));
    assert!(pool.is_connected((2, 2)));
    pool.enqueue((1, 1));
    assert_eq!(pool.pending_len(), 1);
}

#[test]
fn tracker_peers_join_the_queue() {
    let mut pool = PeerPool::new();
    pool.connected((5, 5));
    peer_list_helper(Some(vec![(1, 1), (5, 5), (2, 2), (1, 1)]), &mut pool);
    assert_eq!(pool.pending_len(), 2);
    peer_list_helper(None, &mut pool);
    assert_eq!(pool.pending_len(), 2);
    pool.enqueue_all(&vec![(2, 2), (3, 3)]);
    assert!(matches!(pool.next_peer(1), SpawnStep::Connect((1, 1))));
    assert!(matches!(pool.next_peer(1), SpawnStep::Connect((2, 2))));
    assert!(matches!(pool.next_peer(1), SpawnStep::Connect((3, 3))));
}
