use drone_core::sync::spsc::oneshot::{Inner, Poll, Sender};

#[test]
fn fresh_slot_is_open_and_empty() {
    let mut inner: Inner<u32, ()> = Inner::new();
    assert!(!inner.is_canceled());
    assert!(!inner.is_waker_stored(true));
    assert!(!inner.is_waker_stored(false));
    assert_eq!(inner.take(), None);
}

#[test]
fn send_stores_the_message_and_closes_the_slot() {
    let mut inner: Inner<u32, ()> = Inner::new();
    let sender = Sender::new(&mut inner);
    assert!(!sender.is_canceled());
    assert_eq!(sender.send(Ok(7)), Ok(()));
    assert!(inner.is_canceled());
    assert_eq!(inner.take(), Some(Ok(7)));
    assert_eq!(inner.take(), None);
}

#[test]
fn send_carries_an_error_as_well_as_a_value() {
    let mut inner: Inner<u32, &str> = Inner::new();
    assert_eq!(Sender::new(&mut inner).send(Err("failed")), Ok(()));
    assert_eq!(inner.take(), Some(Err("failed")));
}

#[test]
fn send_after_the_receiver_is_gone_returns_the_message() {
    let mut inner: Inner<String, ()> = Inner::new();
    assert!(!inner.close_half(false));
    let sender = Sender::new(&mut inner);
    assert!(sender.is_canceled());
    assert_eq!(sender.send(Ok("lost".to_string())), Err(Ok("lost".to_string())));
    assert!(inner.is_canceled());
    assert_eq!(inner.take(), None);
}

#[test]
fn poll_cancel_is_pending_while_the_receiver_lives() {
    let mut inner: Inner<u32, ()> = Inner::new();
    let mut sender = Sender::new(&mut inner);
    assert_eq!(sender.poll_cancel(), Poll::Pending);
    assert_eq!(sender.poll_cancel(), Poll::Pending);
    assert!(!sender.is_canceled());
    assert!(inner.is_waker_stored(true));
    assert!(!inner.is_waker_stored(false));
}

#[test]
fn poll_cancel_is_ready_once_the_receiver_is_gone() {
    let mut inner: Inner<u32, ()> = Inner::new();
    assert_eq!(Sender::new(&mut inner).poll_cancel(), Poll::Pending);
    // Closing the receiving half has to wake the sender that waits.
    assert!(inner.close_half(false));
    let mut sender = Sender::new(&mut inner);
    assert_eq!(sender.poll_cancel(), Poll::Ready(()));
    assert!(sender.is_canceled());
}

#[test]
fn poll_cancel_leaves_no_waker_on_a_closed_slot() {
    let mut inner: Inner<u32, ()> = Inner::new();
    inner.close_half(false);
    assert_eq!(Sender::new(&mut inner).poll_cancel(), Poll::Ready(()));
    assert!(!inner.is_waker_stored(true));
}

#[test]
fn is_canceled_leaves_the_slot_as_it_was() {
    let mut inner: Inner<u32, ()> = Inner::new();
    let sender = Sender::new(&mut inner);
    assert!(!sender.is_canceled());
    assert!(!sender.is_canceled());
    assert!(!inner.is_waker_stored(true));
    assert!(!inner.is_canceled());
}

#[test]
fn close_wakes_a_receiver_that_waits() {
    let mut inner: Inner<u32, ()> = Inner::new();
    assert_eq!(inner.poll_half(false), Poll::Pending);
    assert!(inner.is_waker_stored(false));
    assert!(Sender::new(&mut inner).close());
    assert!(inner.is_canceled());
    assert_eq!(inner.poll_half(false), Poll::Ready(()));
    assert_eq!(inner.take(), None);
}

#[test]
fn close_wakes_nobody_where_nobody_waits() {
    let mut inner: Inner<u32, ()> = Inner::new();
    assert!(!Sender::new(&mut inner).close());
    assert!(inner.is_canceled());
}

#[test]
fn second_close_wakes_nobody() {
    let mut inner: Inner<u32, ()> = Inner::new();
    assert_eq!(inner.poll_half(false), Poll::Pending);
    assert!(inner.close_half(true));
    assert!(!inner.close_half(true));
    assert!(!inner.close_half(false));
    assert!(inner.is_canceled());
    assert!(inner.is_waker_stored(false));
}

#[test]
fn message_sent_to_a_waiting_receiver_is_there_when_it_wakes() {
    let mut inner: Inner<u32, ()> = Inner::new();
    assert_eq!(inner.poll_half(false), Poll::Pending);
    assert_eq!(Sender::new(&mut inner).send(Ok(42)), Ok(()));
    assert!(inner.is_waker_stored(false));
    assert_eq!(inner.poll_half(false), Poll::Ready(()));
    assert_eq!(inner.take(), Some(Ok(42)));
}

#[test]
fn slot_send_stores_without_closing() {
    let mut inner: Inner<u32, ()> = Inner::new();
    assert_eq!(inner.send(Ok(1)), Ok(()));
    assert!(!inner.is_canceled());
    assert_eq!(inner.send(Ok(2)), Ok(()));
    assert_eq!(inner.take(), Some(Ok(2)));
    inner.close_half(true);
    assert_eq!(inner.send(Ok(3)), Err(Ok(3)));
    assert_eq!(inner.take(), None);
}
