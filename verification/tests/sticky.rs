use jftermd::sticky::StickyState;

#[test]
fn empty_state_serializes_to_a_hard_reset_only() {
    let s = StickyState::new();
    let out = s.serialize();
    assert_eq!(out, b"\x1b[0m".to_vec());
}

#[test]
fn sgr_is_reasserted() {
    let mut s = StickyState::new();
    s.set_sgr(&[1, 31]); // bold, fg red
    let out = s.serialize();
    assert_eq!(out, b"\x1b[0m\x1b[1;31m".to_vec());
}

#[test]
fn dec_private_modes_are_reasserted() {
    let mut s = StickyState::new();
    s.set_dec_mode(1049, true); // alt screen on
    s.set_dec_mode(2004, true); // bracketed paste on
    let out = s.serialize();
    // Modes emitted in ascending code order for determinism.
    assert_eq!(out, b"\x1b[0m\x1b[?1049h\x1b[?2004h".to_vec());
}

#[test]
fn dec_mode_reset_removes_it() {
    let mut s = StickyState::new();
    s.set_dec_mode(1049, true);
    s.set_dec_mode(1049, false);
    let out = s.serialize();
    assert_eq!(out, b"\x1b[0m".to_vec());
}

#[test]
fn scroll_region_and_cwd_and_title() {
    let mut s = StickyState::new();
    s.set_scroll_region(Some((2, 24))); // stored as the 1-based CSI params
    s.set_cwd(b"file:///home/jfim".to_vec());
    s.set_title(b"vim".to_vec());
    let out = s.serialize();
    assert_eq!(
        out,
        b"\x1b[0m\x1b[2;24r\x1b]7;file:///home/jfim\x07\x1b]2;vim\x07".to_vec()
    );
}

#[test]
fn modes_come_in_ascending_order_whatever_the_order_of_setting() {
    let mut s = StickyState::default();
    s.set_dec_mode(2004, true);
    s.set_dec_mode(1, true);
    s.set_dec_mode(65535, true);
    s.set_dec_mode(2004, true);
    s.set_dec_mode(0, true);
    assert_eq!(
        s.serialize(),
        b"\x1b[0m\x1b[?0h\x1b[?1h\x1b[?2004h\x1b[?65535h".to_vec()
    );
}

#[test]
fn everything_together_in_order() {
    let mut s = StickyState::new();
    s.set_title(b"t".to_vec());
    s.set_cwd(b"c".to_vec());
    s.set_scroll_region(Some((1, 10)));
    s.set_dec_mode(25, true);
    s.set_sgr(&[38, 5, 200]);
    assert_eq!(
        s.serialize(),
        b"\x1b[0m\x1b[38;5;200m\x1b[?25h\x1b[1;10r\x1b]7;c\x07\x1b]2;t\x07".to_vec()
    );
    s.set_sgr(&[]);
    s.set_scroll_region(None);
    assert_eq!(s.serialize(), b"\x1b[0m\x1b[?25h\x1b]7;c\x07\x1b]2;t\x07".to_vec());
}

#[test]
fn charsets_and_shift_come_before_cwd() {
    let mut s = StickyState::new();
    s.set_cwd(b"c".to_vec());
    s.set_scroll_region(Some((1, 2)));
    s.set_charset(1, b")0".to_vec());
    s.set_charset(3, b"+A".to_vec());
    s.set_shift(1);
    assert_eq!(
        s.serialize(),
        b"\x1b[0m\x1b[1;2r\x1b)0\x1b+A\x0e\x1b]7;c\x07".to_vec()
    );
    s.set_dec_mode(25, false);
    s.set_title(b"t".to_vec());
    s.reset();
    assert_eq!(s.serialize(), b"\x1b[0m\x1b]7;c\x07\x1b]2;t\x07".to_vec());
}

#[test]
fn setting_replaces_and_applying_adds() {
    let mut s = StickyState::new();
    s.set_sgr(&[1]);
    s.apply_sgr(&vec![vec![31], vec![4, 3]]);
    assert_eq!(s.serialize(), b"\x1b[0m\x1b[1;31;4:3m".to_vec());
    s.set_sgr(&[7, 9]);
    assert_eq!(s.serialize(), b"\x1b[0m\x1b[7;9m".to_vec());
    s.apply_sgr(&vec![]);
    assert_eq!(s.serialize(), b"\x1b[0m".to_vec());
    // Parameters that are set are written as they are, however many.
    let many: Vec<u16> = (300..340).collect();
    s.set_sgr(&many);
    let text: Vec<String> = many.iter().map(|n| n.to_string()).collect();
    assert_eq!(s.serialize(), format!("\x1b[0m\x1b[{}m", text.join(";")).into_bytes());
}

#[test]
fn colours_and_links_come_last() {
    let mut s = StickyState::new();
    let osc = |fields: &[&str]| -> Vec<Vec<u8>> { fields.iter().map(|f| f.as_bytes().to_vec()).collect() };
    s.set_title(b"t".to_vec());
    s.apply_colors(&osc(&["4", "1", "red", "2", "blue"]));
    s.apply_colors(&osc(&["10", "#fff", "#000"]));
    s.set_link(Some(b";http://x".to_vec()));
    assert_eq!(
        s.serialize(),
        b"\x1b[0m\x1b]2;t\x07\x1b]4;1;red\x07\x1b]4;2;blue\x07\x1b]10;#fff\x07\x1b]11;#000\x07\x1b]8;;http://x\x07"
            .to_vec()
    );
    s.set_link(None);
    s.apply_colors(&osc(&["104"]));
    assert_eq!(
        s.serialize(),
        b"\x1b[0m\x1b]2;t\x07\x1b]10;#fff\x07\x1b]11;#000\x07".to_vec()
    );
}

#[test]
fn modes_on_by_default_are_remembered_when_off() {
    let mut s = StickyState::new();
    s.set_dec_mode(7, false);
    assert_eq!(s.serialize(), b"\x1b[0m\x1b[?7l".to_vec());
    s.set_dec_mode(7, true);
    assert_eq!(s.serialize(), b"\x1b[0m\x1b[?7h".to_vec());
}
