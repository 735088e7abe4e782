use yot_run::reactor::{IoAttempt, IoPoll, Reactor};

#[test]
fn event_fires_registered_waker_once() {
    let mut r: Reactor<&str> = Reactor::new();
    r.add_waker(5, "a");
    r.add_waker(7, "b");
    assert_eq!(r.dispatch_events(&vec![7, 9, 5, 5]), vec!["b", "a"]);
    assert_eq!(r.dispatch_events(&vec![5, 7]), Vec::<&str>::new());
}

#[test]
fn later_waker_replaces_earlier() {
    let mut r: Reactor<&str> = Reactor::new();
    r.add_waker(5, "x");
    r.add_waker(5, "y");
    assert_eq!(r.dispatch_events(&vec![5]), vec!["y"]);
}

#[test]
fn unrelated_events_leave_wakers_registered() {
    let mut r: Reactor<u8> = Reactor::new();
    r.add_waker(1, 10);
    r.add_waker(2, 20);
    assert_eq!(r.dispatch_events(&vec![2]), vec![20]);
    assert_eq!(r.dispatch_events(&vec![3, 1]), vec![10]);
}

#[test]
fn poll_io_outcomes() {
    let mut r: Reactor<&str> = Reactor::new();
    match r.poll_io(IoAttempt::<u32, &str>::Done(3), 4, "w0") {
        IoPoll::Ready(Ok(3)) => {}
        _ => panic!("expected a ready value"),
    }
    match r.poll_io(IoAttempt::<u32, &str>::Failed("boom"), 4, "w1") {
        IoPoll::Ready(Err("boom")) => {}
        _ => panic!("expected a ready error"),
    }
    assert_eq!(r.dispatch_events(&vec![4]), Vec::<&str>::new());
    match r.poll_io(IoAttempt::<u32, &str>::WouldBlock, 4, "w2") {
        IoPoll::Pending => {}
        _ => panic!("expected pending"),
    }
    assert_eq!(r.dispatch_events(&vec![4]), vec!["w2"]);
}
