use jftermd::ring::ChunkRing;

#[test]
fn replays_open_chunk_data_with_empty_prologue() {
    let mut r = ChunkRing::new(128 * 1024);
    r.append(b"hello ");
    r.append(b"world");
    assert_eq!(r.replay(usize::MAX), b"hello world".to_vec());
}

#[test]
fn cut_seals_chunk_and_starts_new_with_prologue() {
    let mut r = ChunkRing::new(128 * 1024);
    r.append(b"AAA");
    r.cut(b"\x1b[0m\x1b[31m".to_vec());
    r.append(b"BBB");
    assert_eq!(r.replay(usize::MAX), b"AAABBB".to_vec());
}

#[test]
fn want_chunks_caps_to_most_recent_and_uses_their_prologue() {
    let mut r = ChunkRing::new(128 * 1024);
    r.append(b"AAA");
    r.cut(b"P1".to_vec());
    r.append(b"BBB");
    r.cut(b"P2".to_vec());
    r.append(b"CCC");
    assert_eq!(r.replay(2), b"P1BBBCCC".to_vec());
    assert_eq!(r.replay(1), b"P2CCC".to_vec());
}

#[test]
fn should_cut_reports_when_open_chunk_passes_watermark() {
    let mut r = ChunkRing::new(8);
    assert!(!r.should_cut());
    r.append(b"1234567");
    assert!(!r.should_cut());
    r.append(b"89");
    assert!(r.should_cut());
}

#[test]
fn purge_drops_prior_chunks_and_resets_open_chunk() {
    let mut r = ChunkRing::new(128 * 1024);
    r.append(b"OLD");
    r.cut(b"P1".to_vec());
    r.append(b"MORE");
    r.purge(b"\x1bc".to_vec());
    r.append(b"NEW");
    assert_eq!(r.replay(usize::MAX), b"\x1bcNEW".to_vec());
}

#[test]
fn replay_more_chunks_than_exist_returns_all() {
    let mut r = ChunkRing::new(128 * 1024);
    r.append(b"X");
    r.cut(b"P1".to_vec());
    r.append(b"Y");
    assert_eq!(r.replay(999), b"XY".to_vec());
}

#[test]
fn replay_of_no_chunks_gives_the_newest() {
    let mut r = ChunkRing::new(8);
    r.append(b"X");
    r.cut(b"P1".to_vec());
    r.append(b"Y");
    assert_eq!(r.replay(0), b"P1Y".to_vec());
}

#[test]
fn cutting_keeps_the_whole_replay() {
    let mut r = ChunkRing::new(8);
    r.append(b"X");
    let before = r.replay(usize::MAX);
    r.cut(b"P".to_vec());
    assert_eq!(r.replay(usize::MAX), before);
    assert_eq!(r.replay(1), b"P".to_vec());
}

#[test]
fn a_watermark_of_zero_is_always_reached() {
    let r = ChunkRing::new(0);
    assert!(r.should_cut());
}
