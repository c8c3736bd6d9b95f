use jftermd::status::{StatusCache, StatusSnapshot};

#[test]
fn defaults_are_idle() {
    let c = StatusCache::new();
    let s = c.snapshot();
    assert!(!s.running);
    assert_eq!(s.progress, None);
}

#[test]
fn tracks_running_and_progress() {
    let mut c = StatusCache::new();
    c.set_running(true);
    c.set_progress(Some(42));
    let s = c.snapshot();
    assert!(s.running);
    assert_eq!(s.progress, Some(42));
}

#[test]
fn progress_can_clear() {
    let mut c = StatusCache::new();
    c.set_progress(Some(10));
    c.set_progress(None);
    assert_eq!(c.snapshot().progress, None);
}

#[test]
fn prompt_marker_latches() {
    let mut c = StatusCache::new();
    assert!(!c.saw_prompt_marker());
    c.set_prompt_marker_seen();
    assert!(c.saw_prompt_marker());
}

#[test]
fn default_is_new() {
    let c = StatusCache::default();
    assert_eq!(c.snapshot(), StatusSnapshot { running: false, progress: None });
    assert!(!c.saw_prompt_marker());
}
