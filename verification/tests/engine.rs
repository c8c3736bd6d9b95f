use jftermd::ReplayEngine;

#[test]
fn feed_replay_status_roundtrip() {
    let mut e = ReplayEngine::new();
    e.feed(b"\x1b]133;C\x07");
    e.feed(b"building...");
    e.feed(b"\x1b]9;4;1;75\x07");
    assert_eq!(e.replay(), b"building...".to_vec());
    let s = e.status();
    assert!(s.running);
    assert_eq!(s.progress, Some(75));
}

#[test]
fn replay_default_reaches_all_available_scrollback() {
    let mut e = ReplayEngine::new();
    e.feed(b"line one\r\nline two\r\n");
    let out = e.replay();
    assert!(out.windows(8).any(|w| w == b"line one"));
    assert!(out.windows(8).any(|w| w == b"line two"));
}

#[test]
fn has_prompt_marking_latches_on_first_osc133_any_subtype() {
    let mut e = ReplayEngine::new();
    assert!(!e.has_prompt_marking());
    // 133;A (prompt start) is not C/D but must still latch.
    e.feed(b"\x1b]133;A\x07");
    assert!(e.has_prompt_marking());
}

#[test]
fn no_prompt_marking_without_osc133() {
    let mut e = ReplayEngine::new();
    e.feed(b"plain output\r\n");
    assert!(!e.has_prompt_marking());
}

#[test]
fn engine_cuts_at_its_watermark() {
    let mut e = ReplayEngine::default();
    e.feed(b"\x1b[31m");
    e.feed(&vec![b'x'; 128 * 1024]);
    assert_eq!(e.replay_capped(1), b"\x1b[0m\x1b[31mxxxxx".to_vec());
    assert_eq!(e.replay().len(), 128 * 1024 + 5);
}
