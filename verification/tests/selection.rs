use timelapse::frames::{Frame, FrameCollection};
use timelapse::window::day_window;

fn collection(ts: &[i64]) -> FrameCollection {
    FrameCollection {
        frames: ts
            .iter()
            .map(|t| Frame { path: format!("/c/{}.jpg", t), timestamp: *t })
            .collect(),
    }
}

fn timestamps(fc: &FrameCollection) -> Vec<i64> {
    fc.frames.iter().map(|f| f.timestamp).collect()
}

#[test]
fn select_sorts_ascending_and_keeps_in_window_only() {
    let fc = collection(&[5, 1, 9, 3, 3, 7]);
    let picked = fc.get_range(0, 10);
    assert_eq!(timestamps(&picked), vec![1, 3, 3, 5, 7, 9]);
    for f in &picked.frames {
        assert!(0 < f.timestamp && f.timestamp < 10);
    }
}

#[test]
fn select_holds_for_generated_timestamp_sets() {
    let mut seed: u64 = 0x2545f4914f6cdd1d;
    let mut ts: Vec<i64> = Vec::new();
    for _ in 0..64 {
        seed = seed.wrapping_mul(6364136223846793005).wrapping_add(1442695040888963407);
        ts.push((seed % 1000) as i64);
    }
    let fc = collection(&ts);
    let picked = fc.get_range(200, 800);
    let out = timestamps(&picked);
    for w in out.windows(2) {
        assert!(w[0] <= w[1]);
    }
    for t in &out {
        assert!(200 < *t && *t < 800);
    }
    let expected = ts.iter().filter(|t| 200 < **t && **t < 800).count();
    assert_eq!(out.len(), expected);
}

#[test]
fn select_excludes_both_boundaries() {
    let fc = collection(&[3, 4, 5, 8, 9]);
    let picked = fc.get_range(3, 9);
    assert_eq!(timestamps(&picked), vec![4, 5, 8]);
}

#[test]
fn select_on_empty_input_is_empty() {
    let fc = collection(&[]);
    assert_eq!(fc.get_range(0, 100).frames.len(), 0);
    let fc2 = collection(&[50]);
    assert_eq!(fc2.get_range(0, 10).frames.len(), 0);
}

#[test]
fn trailing_day_keeps_only_recent_frame() {
    let now: i64 = 1700000000;
    let fc = collection(&[now - 3600, now - 90000]);
    let picked = fc.get_past_days_at(1, now);
    assert_eq!(timestamps(&picked), vec![now - 3600]);
}

#[test]
fn trailing_window_boundaries_are_strict() {
    let now: i64 = 1700000000;
    let fc = collection(&[now - 86400, now - 86399, now]);
    let picked = fc.get_past_days_at(1, now);
    assert_eq!(timestamps(&picked), vec![now - 86399]);
}

#[test]
fn day_window_boundaries_at_fixed_offset() {
    let w = day_window("2024-06-01").expect("valid day");
    assert_eq!(w.start, 1717214400);
    assert_eq!(w.end, 1717300799);
    let fc = collection(&[1717300798, 1717300799, 1717300801, 1717214400, 1717214401]);
    let picked = fc.select(&w);
    assert_eq!(timestamps(&picked), vec![1717214401, 1717300798]);
    assert_eq!(picked.len(), 2);
    assert!(w.contains(1717300798));
    assert!(!w.contains(1717300799));
    assert!(!w.contains(1717300801));
    assert!(!w.contains(1717214400));
}

#[test]
fn trailing_days_against_the_real_clock() {
    let now = std::time::SystemTime::now()
        .duration_since(std::time::UNIX_EPOCH)
        .expect("clock after the epoch")
        .as_secs() as i64;
    let fc = collection(&[now - 3600, now - 10 * 86400]);
    let picked = fc.get_past_days(1);
    assert_eq!(timestamps(&picked), vec![now - 3600]);
}

#[test]
fn day_window_rejects_malformed_and_impossible_days() {
    assert!(day_window("2024-13-01").is_none());
    assert!(day_window("2024-02-30").is_none());
    assert!(day_window("abcd-01-01").is_none());
    assert!(day_window("2024-6-1").is_none());
    assert!(day_window("").is_none());
    assert!(day_window("0000-01-01").is_none());
    assert!(day_window("2023-02-29").is_none());
}

#[test]
fn day_window_accepts_leap_day() {
    let w = day_window("2024-02-29").expect("leap day");
    // 2024-02-29T00:00:00-04:00
    assert_eq!(w.start, 1709179200);
    assert_eq!(w.end, w.start + 86399);
}

#[test]
fn epoch_day_window() {
    let w = day_window("1970-01-01").expect("epoch day");
    assert_eq!(w.start, 14400);
    assert_eq!(w.end, 14400 + 86399);
}
