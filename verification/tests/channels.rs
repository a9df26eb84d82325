use timely::bootstrap::AllocatorState;
use timely::bootstrap::ChannelQueue;

#[test]
fn channel_identifiers_are_monotone() {
    let mut state = AllocatorState::new(1, 4);
    assert_eq!(state.index(), 1);
    assert_eq!(state.peers(), 4);
    assert_eq!(state.allocate(), 0);
    assert_eq!(state.allocate(), 1);
    assert_eq!(state.allocate(), 2);
}

#[test]
fn matching_allocation_orders_agree_on_identifiers() {
    let mut first = AllocatorState::new(0, 2);
    let mut second = AllocatorState::new(1, 2);
    for _ in 0..5 {
        assert_eq!(first.allocate(), second.allocate());
    }
}

#[test]
fn queue_delivers_in_send_order() {
    let mut queue: ChannelQueue<String> = ChannelQueue::new();
    queue.send("first".to_owned());
    queue.send("second".to_owned());
    queue.send("third".to_owned());
    assert_eq!(queue.len(), 3);
    assert_eq!(queue.recv(), Some("first".to_owned()));
    assert_eq!(queue.recv(), Some("second".to_owned()));
    assert_eq!(queue.recv(), Some("third".to_owned()));
    assert_eq!(queue.recv(), None);
}

#[test]
fn queue_interleaves_sends_and_receives_in_order() {
    let mut queue: ChannelQueue<u64> = ChannelQueue::new();
    queue.send(1);
    queue.send(2);
    assert_eq!(queue.recv(), Some(1));
    queue.send(3);
    assert_eq!(queue.recv(), Some(2));
    assert_eq!(queue.recv(), Some(3));
    assert_eq!(queue.recv(), None);
    assert_eq!(queue.len(), 0);
}
