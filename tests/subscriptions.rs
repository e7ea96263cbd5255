use rspc::execute::{Frame, ProcedureError};
use rspc::subscriptions::Subscriptions;

#[test]
fn reissued_channel_cancels_previous_task() {
    let mut s = Subscriptions::new();
    assert_eq!(s.request(1, 10), None);
    assert!(s.is_current(1, 10));
    assert_eq!(s.request(1, 11), Some(10));
    assert!(!s.is_current(1, 10));
    assert!(s.is_current(1, 11));
}

#[test]
fn abort_cancels_and_forgets() {
    let mut s = Subscriptions::new();
    s.request(1, 10);
    s.request(2, 20);
    assert_eq!(s.abort(1), Some(10));
    assert!(!s.is_current(1, 10));
    assert!(s.is_current(2, 20));
    assert_eq!(s.abort(1), None);
    assert_eq!(s.abort(3), None);
}

#[test]
fn finished_task_only_clears_its_own_binding() {
    let mut s = Subscriptions::new();
    s.request(1, 10);
    s.request(1, 11);
    s.finished(1, 10);
    assert!(s.is_current(1, 11));
    s.finished(1, 11);
    assert!(!s.is_current(1, 11));
    assert_eq!(s.request(1, 12), None);
}

#[test]
fn frames_of_a_replaced_task_are_dropped() {
    let mut s = Subscriptions::new();
    s.request(4, 40);
    let f = s.next_frame::<u32, ()>(4, 40, Some(Ok(1)));
    assert!(matches!(f, Some(Frame::Item { code: 200, body: Ok(1) })));
    assert_eq!(s.request(4, 41), Some(40));
    assert!(s.next_frame::<u32, ()>(4, 40, Some(Ok(2))).is_none());
    assert!(s.next_frame::<u32, ()>(4, 40, None).is_none());
    assert!(s.is_current(4, 41));
    let f = s.next_frame::<u32, ()>(4, 41, Some(Err((503, ()))));
    assert!(matches!(f, Some(Frame::Item { code: 503, body: Err(ProcedureError::Resolver { .. }) })));
    assert!(matches!(s.next_frame::<u32, ()>(4, 41, None), Some(Frame::Done)));
    assert!(!s.is_current(4, 41));
}

#[test]
fn nothing_is_sent_after_abort() {
    let mut s = Subscriptions::new();
    s.request(9, 90);
    assert_eq!(s.abort(9), Some(90));
    assert!(s.next_frame::<u32, ()>(9, 90, Some(Ok(1))).is_none());
    assert!(s.next_frame::<u32, ()>(9, 90, None).is_none());
}
