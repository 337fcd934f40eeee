use std::time::{Duration, SystemTime, UNIX_EPOCH};

use presemble::path::SitePath;
use presemble::self_write_tracker::SelfWriteTracker;

fn nanos(time: SystemTime) -> i128 {
    time.duration_since(UNIX_EPOCH).unwrap().as_nanos() as i128
}

/// The start of the clock that the writes are dated by.
const START: u128 = 1_000_000_000;

#[test]
fn record_then_should_ignore_same_mtime() {
    let mut tracker = SelfWriteTracker::new(Duration::from_secs(5).as_nanos());
    let path = SitePath::new("/site/content/post.md");
    let mtime = nanos(SystemTime::now());

    tracker.record(path.clone(), mtime, START);

    assert!(
        tracker.should_ignore(&path, mtime, START),
        "same mtime should be ignored after record"
    );
}

#[test]
fn should_not_ignore_different_mtime() {
    let mut tracker = SelfWriteTracker::new(Duration::from_secs(5).as_nanos());
    let path = SitePath::new("/site/content/post.md");
    let mtime_x = nanos(SystemTime::now());
    let mtime_y = mtime_x + Duration::from_secs(1).as_nanos() as i128;

    tracker.record(path.clone(), mtime_x, START);

    assert!(
        !tracker.should_ignore(&path, mtime_y, START),
        "different mtime (genuine external edit) should not be ignored"
    );
}

#[test]
fn should_not_ignore_after_expiry() {
    let mut tracker = SelfWriteTracker::new(Duration::from_millis(50).as_nanos());
    let path = SitePath::new("/site/content/post.md");
    let mtime = nanos(SystemTime::now());

    tracker.record(path.clone(), mtime, START);

    let later = START + Duration::from_millis(100).as_nanos();
    assert!(
        !tracker.should_ignore(&path, mtime, later),
        "should not ignore after retention window expires"
    );
}

#[test]
fn should_not_ignore_unrecorded_path() {
    let tracker = SelfWriteTracker::new(Duration::from_secs(5).as_nanos());
    let path = SitePath::new("/site/content/never-written.md");
    let mtime = nanos(SystemTime::now());

    assert!(
        !tracker.should_ignore(&path, mtime, START),
        "path never recorded should not be ignored"
    );
}

#[test]
fn window_ends_at_the_retention_time() {
    let mut tracker = SelfWriteTracker::new(50);
    let path = SitePath::new("a.md");
    tracker.record(path.clone(), 7, 100);
    assert!(tracker.should_ignore(&path, 7, 149));
    assert!(!tracker.should_ignore(&path, 7, 150));
    // A clock that runs behind counts as no time at all.
    assert!(tracker.should_ignore(&path, 7, 90));
}

#[test]
fn record_drops_writes_that_left_the_window() {
    let mut tracker = SelfWriteTracker::new(50);
    let old = SitePath::new("old.md");
    let recent = SitePath::new("recent.md");
    tracker.record(old.clone(), 1, 0);
    tracker.record(recent.clone(), 2, 30);
    tracker.record(SitePath::new("new.md"), 3, 60);
    assert!(!tracker.should_ignore(&old, 1, 10));
    assert!(tracker.should_ignore(&recent, 2, 60));
}

#[test]
fn record_again_replaces_the_write() {
    let mut tracker = SelfWriteTracker::new(50);
    let path = SitePath::new("dir/a.md");
    tracker.record(path, 1, 0);
    tracker.record(SitePath::new("dir//a.md"), 2, 10);
    let path = SitePath::new("dir/a.md");
    assert!(!tracker.should_ignore(&path, 1, 20));
    assert!(tracker.should_ignore(&path, 2, 20));
}
