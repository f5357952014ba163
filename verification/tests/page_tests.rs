use corun::waker_page::{WakerPage, WAKER_PAGE_SIZE};
use corun::executor::page_index;

#[test]
fn page_size_is_one_word() {
    assert_eq!(WAKER_PAGE_SIZE, 64);
}

#[test]
fn page_index_splits_key() {
    assert_eq!(page_index(0), (0, 0));
    assert_eq!(page_index(63), (0, 63));
    assert_eq!(page_index(64), (1, 0));
    assert_eq!(page_index(130), (2, 2));
    let (p, s) = page_index(usize::MAX);
    assert_eq!(p * WAKER_PAGE_SIZE + s, usize::MAX);
}

#[test]
fn fresh_page_is_empty() {
    let mut p = WakerPage::new();
    assert_eq!(p.take_notified(), 0);
    assert_eq!(p.take_dropped(), 0);
}

#[test]
fn initialize_notifies_and_undrops() {
    let mut p = WakerPage::new();
    p.mark_dropped(3);
    p.initialize(3);
    p.initialize(10);
    assert_eq!(p.take_notified(), (1u64 << 3) | (1u64 << 10));
    assert_eq!(p.take_dropped(), 0);
}

#[test]
fn take_notified_clears_only_notified() {
    let mut p = WakerPage::new();
    p.notify(0);
    p.notify(63);
    p.mark_dropped(5);
    assert_eq!(p.take_notified(), 1u64 | (1u64 << 63));
    assert_eq!(p.take_notified(), 0);
    assert_eq!(p.take_dropped(), 1u64 << 5);
    assert_eq!(p.take_dropped(), 0);
}

#[test]
fn notify_is_idempotent() {
    let mut p = WakerPage::new();
    p.notify(7);
    p.notify(7);
    assert_eq!(p.take_notified(), 1u64 << 7);
}

#[test]
fn mark_dropped_keeps_notified() {
    let mut p = WakerPage::new();
    p.notify(2);
    p.mark_dropped(2);
    assert_eq!(p.take_notified(), 1u64 << 2);
    assert_eq!(p.take_dropped(), 1u64 << 2);
}
