use corun::net::EventRegistry;
use corun::{AsyncRead, AsyncWrite};

#[test]
fn tokens_count_up_from_zero() {
    let mut r: EventRegistry<u32> = EventRegistry::new();
    assert_eq!(r.add_source(), 0);
    assert_eq!(r.add_source(), 1);
    assert_eq!(r.add_source(), 2);
    assert!(r.is_registered(1));
    assert!(!r.is_registered(3));
}

#[test]
fn fresh_source_is_not_readable() {
    let mut r: EventRegistry<u32> = EventRegistry::new();
    let t = r.add_source();
    assert!(!r.poll_read_ready(t, 1));
    assert!(!r.read_permit(t, 1));
}

#[test]
fn readable_event_grants_one_read() {
    let mut r: EventRegistry<u32> = EventRegistry::new();
    let t = r.add_source();
    assert!(!r.on_event(t, true, false));
    assert!(r.poll_read_ready(t, 1));
    assert!(r.read_permit(t, 1));
    assert!(!r.read_permit(t, 1));
    assert!(!r.poll_read_ready(t, 1));
    r.on_event(t, true, true);
    assert!(r.read_permit(t, 1));
}

#[test]
fn writable_event_does_not_grant_read() {
    let mut r: EventRegistry<u32> = EventRegistry::new();
    let t = r.add_source();
    r.on_event(t, false, true);
    assert!(!r.poll_read_ready(t, 1));
}

#[test]
fn first_waker_is_kept_and_reported() {
    let mut r: EventRegistry<u32> = EventRegistry::new();
    let t = r.add_source();
    assert_eq!(r.waker(t), None);
    assert!(!r.on_event(t, false, false));
    r.poll_read_ready(t, 7);
    r.poll_read_ready(t, 8);
    assert_eq!(r.waker(t), Some(&7));
    assert!(r.on_event(t, true, false));
}

#[test]
fn unknown_token_events_are_ignored() {
    let mut r: EventRegistry<u32> = EventRegistry::new();
    let t = r.add_source();
    assert!(!r.on_event(t + 5, true, true));
    assert_eq!(r.waker(t + 5), None);
    assert!(!r.poll_read_ready(t, 1));
}

#[test]
fn clear_read_readiness_after_failed_accept() {
    let mut r: EventRegistry<u32> = EventRegistry::new();
    let t = r.add_source();
    r.on_event(t, true, false);
    r.clear_read_readiness(t);
    assert!(!r.poll_read_ready(t, 1));
    r.clear_read_readiness(t + 1);
    assert!(!r.is_registered(t + 1));
}

#[test]
fn take_read_readiness_reports_and_clears() {
    let mut r: EventRegistry<u32> = EventRegistry::new();
    let t = r.add_source();
    assert!(!r.take_read_readiness(t));
    r.on_event(t, true, false);
    assert!(r.take_read_readiness(t));
    assert!(!r.take_read_readiness(t));
}

#[test]
fn read_future_holds_its_reader_and_buffer() {
    let mut reader = 5u8;
    let mut buf = [0u8; 4];
    let f: AsyncRead<u8> = corun::io_future::read(&mut reader, &mut buf);
    *f.reader = 6;
    f.buf[0] = 9;
    assert_eq!(reader, 6);
    assert_eq!(buf, [9, 0, 0, 0]);
}

#[test]
fn write_future_holds_its_writer_and_buffer() {
    let mut writer = String::from("w");
    let mut buf = [1u8, 2, 3, 4];
    let f: AsyncWrite<String> = corun::io_future::write(&mut writer, &mut buf);
    f.writer.push('x');
    assert_eq!(f.buf.len(), 4);
    assert_eq!(writer, "wx");
}

#[test]
fn tokens_increase_across_other_calls() {
    let mut r: EventRegistry<u32> = EventRegistry::new();
    let a = r.add_source();
    r.on_event(a, true, true);
    r.poll_read_ready(a, 1);
    r.read_permit(a, 1);
    r.clear_read_readiness(a);
    let b = r.add_source();
    r.take_read_readiness(b);
    let c = r.add_source();
    assert!(a < b && b < c);
}

#[test]
fn one_readiness_one_read_over_many_requests() {
    let mut r: EventRegistry<u32> = EventRegistry::new();
    let t = r.add_source();
    r.on_event(t, true, false);
    let mut granted = 0;
    for i in 0..10 {
        r.poll_read_ready(t, i);
        r.on_event(t, false, true);
        if r.read_permit(t, i) {
            granted += 1;
        }
    }
    assert_eq!(granted, 1);
}
