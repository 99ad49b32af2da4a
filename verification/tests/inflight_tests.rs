use timelapse::cache::CacheKey;
use timelapse::inflight::InFlight;

fn key(folder: &str) -> CacheKey {
    CacheKey {
        folder: folder.to_string(),
        start: 1,
        end: 2,
        fps: 20,
        args_override: None,
    }
}

#[test]
fn first_request_owns_the_encode() {
    let mut running = InFlight::new();
    assert!(!running.is_pending(&key("/a")));
    assert!(running.begin(&key("/a")));
    assert!(running.is_pending(&key("/a")));
}

#[test]
fn identical_concurrent_request_does_not_own_it() {
    let mut running = InFlight::new();
    assert!(running.begin(&key("/a")));
    assert!(!running.begin(&key("/a")));
    assert!(running.begin(&key("/b")));
}

#[test]
fn settling_releases_exactly_that_key() {
    let mut running = InFlight::new();
    assert!(running.begin(&key("/a")));
    assert!(running.begin(&key("/b")));
    running.end(&key("/a"));
    assert!(!running.is_pending(&key("/a")));
    assert!(running.is_pending(&key("/b")));
    assert!(running.begin(&key("/a")));
}

#[test]
fn settling_an_unregistered_key_changes_nothing() {
    let mut running = InFlight::new();
    assert!(running.begin(&key("/a")));
    running.end(&key("/zz"));
    assert!(running.is_pending(&key("/a")));
}
