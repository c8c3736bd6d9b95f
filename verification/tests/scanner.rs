use jftermd::action::Action;
use jftermd::scanner::Scanner;

fn feed(input: &[u8]) -> Scanner {
    let mut s = Scanner::new(128 * 1024);
    s.feed(input);
    s
}

fn contains(hay: &[u8], needle: &[u8]) -> bool {
    hay.windows(needle.len()).any(|w| w == needle)
}

#[test]
fn scanner_plain_text_is_kept_verbatim() {
    let s = feed(b"hello world");
    assert_eq!(s.replay(usize::MAX), b"hello world".to_vec());
}

#[test]
fn scanner_sgr_is_kept_verbatim_and_tracked() {
    let s = feed(b"\x1b[31mRED");
    assert_eq!(s.replay(usize::MAX), b"\x1b[31mRED".to_vec());
}

#[test]
fn scanner_osc52_clipboard_is_dropped_from_the_ring() {
    let s = feed(b"A\x1b]52;c;aGVsbG8=\x07B");
    assert_eq!(s.replay(usize::MAX), b"AB".to_vec());
}

#[test]
fn scanner_bell_is_dropped() {
    let s = feed(b"A\x07B");
    assert_eq!(s.replay(usize::MAX), b"AB".to_vec());
}

#[test]
fn scanner_desktop_notification_osc9_is_dropped() {
    let s = feed(b"A\x1b]9;build done\x07B");
    assert_eq!(s.replay(usize::MAX), b"AB".to_vec());
}

#[test]
fn scanner_dsr_and_da_queries_are_dropped() {
    let s = feed(b"A\x1b[6n\x1b[cB");
    assert_eq!(s.replay(usize::MAX), b"AB".to_vec());
}

#[test]
fn scanner_osc9_4_progress_updates_status_and_is_dropped() {
    let s = feed(b"X\x1b]9;4;1;42\x07Y");
    assert_eq!(s.replay(usize::MAX), b"XY".to_vec());
    let snap = s.status();
    assert_eq!(snap.progress, Some(42));
}

#[test]
fn scanner_osc133_prompt_updates_running_and_is_dropped() {
    let running = feed(b"\x1b]133;C\x07");
    assert_eq!(running.replay(usize::MAX), b"".to_vec());
    assert!(running.status().running);

    let done = feed(b"\x1b]133;C\x07cmd output\x1b]133;D\x07");
    assert_eq!(done.replay(usize::MAX), b"cmd output".to_vec());
    assert!(!done.status().running);
}

#[test]
fn scanner_osc7_cwd_is_kept_verbatim_and_tracked_into_prologue() {
    let s = feed(b"\x1b]7;file:///tmp\x07hi");
    let mut s2 = Scanner::new(4);
    s2.feed(b"\x1b]7;file:///tmp\x07");
    s2.feed(b"aaaa");
    s2.feed(b"X");
    let out = s2.replay(1);
    assert!(contains(&out, b"\x1b]7;file:///tmp\x07"));
    assert!(s.replay(usize::MAX).starts_with(b"\x1b]7;file:///tmp\x07"));
}

#[test]
fn scanner_clear_screen_purges_history() {
    let mut s = Scanner::new(128 * 1024);
    s.feed(b"old stuff here");
    s.feed(b"\x1b[2J");
    s.feed(b"new");
    let out = s.replay(usize::MAX);
    assert!(!out.windows(3).any(|w| w == b"old"));
    assert!(out.ends_with(b"new"));
}

#[test]
fn st_terminated_clipboard_is_fully_dropped() {
    // OSC 52 closed by ST (ESC \): no stray backslash may leak.
    let s = feed(b"A\x1b]52;c;aGVsbG8=\x1b\\B");
    assert_eq!(s.replay(usize::MAX), b"AB".to_vec());
}

#[test]
fn st_terminated_notification_is_fully_dropped() {
    let s = feed(b"A\x1b]9;done\x1b\\B");
    assert_eq!(s.replay(usize::MAX), b"AB".to_vec());
}

#[test]
fn st_terminated_title_is_kept_intact() {
    // Kept OSC keeps the full ST terminator (ESC \), no dangling ESC.
    let s = feed(b"\x1b]2;vim\x1b\\X");
    assert_eq!(s.replay(usize::MAX), b"\x1b]2;vim\x1b\\X".to_vec());
}

#[test]
fn c1_st_terminated_dropped_osc_keeps_following_byte() {
    // 8-bit C1 ST (0x9C) after a dropped OSC must not swallow the next byte.
    let s = feed(b"A\x1b]52;c;Z\x9cB");
    assert_eq!(s.replay(usize::MAX), b"AB".to_vec());
}

#[test]
fn c1_st_terminated_title_keeps_following_byte() {
    // 8-bit C1 ST after a kept OSC (title) must not swallow the next byte.
    let s = feed(b"\x1b]2;vim\x9cX");
    // Title kept; X kept. (Exact terminator bytes in the ring may vary; the
    // invariant under test is that X survives and the title was tracked.)
    assert!(s.replay(usize::MAX).ends_with(b"X"));
}

#[test]
fn utf8_chars_with_0x9c_continuation_byte_survive_replay() {
    // 0x9C is the C1 ST byte, but it is also a valid UTF-8 continuation
    // byte. The scanner must not rewrite it to `ESC \` when it is part of a
    // multibyte character, or the character is corrupted in the replay.
    let input = "café ✓ ─│├".as_bytes();
    let s = feed(input);
    assert_eq!(s.replay(usize::MAX), input.to_vec());
}

#[test]
fn scanner_long_single_sequence_is_not_split_across_the_watermark() {
    let mut payload = b"\x1b]52;c;".to_vec();
    payload.extend(std::iter::repeat(b'A').take(64));
    payload.push(0x07);
    let mut s = Scanner::new(8);
    s.feed(b"start");
    s.feed(&payload);
    s.feed(b"end");
    let out = s.replay(usize::MAX);
    assert!(!out.windows(3).any(|w| w == b"AAA"));
    assert!(out.windows(3).any(|w| w == b"end"));
}

#[test]
fn splitting_the_input_does_not_matter() {
    let input = "a\x1b[1;31mb\x1b]2;ti\u{2713}tle\x07\x1b]52;c;Z\x1b\\├c\x1b[?25h\x1b[2Jd".as_bytes();
    let whole = feed(input);
    for cut in 0..=input.len() {
        let mut s = Scanner::new(128 * 1024);
        s.feed(&input[..cut]);
        s.feed(&input[cut..]);
        assert_eq!(s.replay(usize::MAX), whole.replay(usize::MAX));
        assert_eq!(s.status(), whole.status());
    }
}

#[test]
fn the_whole_replay_ignores_the_watermark() {
    let input = b"one\r\n\x1b[32mtwo\x1b[0m\r\n\x1b]2;t\x07three\r\n\x07four";
    let whole = feed(input);
    for watermark in 0..40 {
        let mut s = Scanner::new(watermark);
        s.feed(input);
        assert_eq!(s.replay(usize::MAX), whole.replay(usize::MAX));
    }
}

#[test]
fn a_capped_replay_carries_the_state_in_its_prologue() {
    let mut s = Scanner::new(6);
    s.feed(b"\x1b[1;31m\x1b[?25h\x1b[2;9rABCDEF");
    assert_eq!(s.replay(1), b"\x1b[0m\x1b[1;31m\x1b[?25h\x1b[2;9r".to_vec());
    s.feed(b"G");
    assert_eq!(s.replay(1), b"\x1b[0m\x1b[1;31m\x1b[?25h\x1b[2;9rG".to_vec());
}

#[test]
fn a_prologue_fed_back_gives_the_same_prologue() {
    let mut s = Scanner::new(1);
    s.feed(b"\x1b[38;5;7m\x1b[?1049h\x1b[?7h\x1b[3;20r\x1b]7;file:///x\x07\x1b]0;name\x07");
    s.feed(b"x");
    let prologue = s.replay(1);
    let mut t = Scanner::new(1);
    t.feed(&prologue);
    t.feed(b"x");
    assert_eq!(t.replay(1), prologue);
}

#[test]
fn a_clear_starts_from_a_known_base() {
    let s = feed(b"junk\x1b[31m\x1b[2J");
    assert_eq!(s.replay(usize::MAX), b"\x1b[2J\x1b[H\x1b[0m\x1b[31m".to_vec());
    let s = feed(b"junk\x1b[3Jx");
    assert_eq!(s.replay(usize::MAX), b"\x1b[2J\x1b[H\x1b[0mx".to_vec());
    let s = feed(b"junk\x1bc");
    assert_eq!(s.replay(1), b"\x1b[2J\x1b[H\x1b[0m".to_vec());
    let s = feed(b"junk\x1b[J\x1b[1J");
    assert_eq!(s.replay(usize::MAX), b"junk\x1b[J\x1b[1J".to_vec());
}

#[test]
fn progress_values() {
    assert_eq!(feed(b"\x1b]9;4;1;42\x07\x1b]9;4;0;10\x07").status().progress, None);
    assert_eq!(feed(b"\x1b]9;4;1;+7\x07").status().progress, Some(7));
    assert_eq!(feed(b"\x1b]9;4;1;007\x07").status().progress, Some(7));
    assert_eq!(feed(b"\x1b]9;4;1;100\x07").status().progress, Some(100));
    assert_eq!(feed(b"\x1b]9;4;1;9\x07\x1b]9;4;1;101\x07").status().progress, None);
    assert_eq!(feed(b"\x1b]9;4;1;9\x07\x1b]9;4;1;200\x07").status().progress, None);
    assert_eq!(feed(b"X\x1b]9;4;1;200\x07Y").replay(usize::MAX), b"XY".to_vec());
    assert_eq!(feed(b"\x1b]9;4;1;9\x07\x1b]9;4;1;256\x07").status().progress, None);
    assert_eq!(feed(b"\x1b]9;4;1;9\x07\x1b]9;4;1;x\x07").status().progress, None);
    assert_eq!(feed(b"\x1b]9;4;1;9\x07\x1b]9;4;1\x07").status().progress, None);
    assert_eq!(feed(b"\x1b]9;4;1;9\x07\x1b]9;5;1;3\x07").status().progress, Some(9));
}

#[test]
fn prompt_marker_latches_for_any_marker() {
    let mut s = feed(b"plain");
    assert!(!s.saw_prompt_marker());
    s.feed(b"\x1b]133;A\x07");
    assert!(s.saw_prompt_marker());
    assert!(!s.status().running);
    s.feed(b"more \x1b[2J text");
    assert!(s.saw_prompt_marker());
}

#[test]
fn private_rendition_is_not_tracked() {
    let mut s = Scanner::new(1);
    s.feed(b"\x1b[31m\x1b[?4m");
    assert_eq!(s.replay(1), b"\x1b[0m\x1b[31m".to_vec());
    s.feed(b"\x1b[m");
    assert_eq!(s.replay(1), b"\x1b[0m".to_vec());
    s.feed(b"\x1b[0;0r\x1b[5r");
    assert_eq!(s.replay(1), b"\x1b[0m\x1b[5;0r".to_vec());
    s.feed(b"\x1b[r");
    assert_eq!(s.replay(1), b"\x1b[0m".to_vec());
}

#[test]
fn modes_are_switched_in_groups() {
    let mut s = Scanner::new(1);
    s.feed(b"\x1b[?1;25;2004h");
    assert_eq!(s.replay(1), b"\x1b[0m\x1b[?1h\x1b[?25h\x1b[?2004h".to_vec());
    // A hidden cursor is not the default, so it is remembered.
    s.feed(b"\x1b[?25;1l");
    assert_eq!(s.replay(1), b"\x1b[0m\x1b[?25l\x1b[?2004h".to_vec());
    s.feed(b"\x1b[4h");
    assert_eq!(s.replay(1), b"\x1b[0m\x1b[?25l\x1b[?2004h".to_vec());
}

#[test]
fn other_strings_are_kept() {
    let input = b"\x1b]8;;http://x\x07link\x1b]8;;\x07\x1bPq#0\x1b\\\x1b(B";
    assert_eq!(feed(input).replay(usize::MAX), input.to_vec());
}

#[test]
fn osc_777_is_dropped() {
    assert_eq!(feed(b"A\x1b]777;notify;t;b\x07B").replay(usize::MAX), b"AB".to_vec());
}

#[test]
fn malformed_utf8_is_resynchronised() {
    // A lead byte that is cut off by a standalone ST: the ST is recognised.
    let s = feed(b"\x1b]52;c;\xe2\x9cZ\x9cB");
    assert_eq!(s.replay(usize::MAX), b"B".to_vec());
}

#[test]
fn absorbed_actions_decide_the_span() {
    let mut s = Scanner::new(100);
    s.absorb(b'A', &vec![Action::Print('A')]);
    s.absorb(0x1b, &vec![]);
    s.absorb(b'Z', &vec![Action::Execute(0x07)]);
    s.absorb(b'B', &vec![Action::Print('B')]);
    s.absorb(b'C', &vec![]);
    assert_eq!(s.replay(usize::MAX), b"AB".to_vec());
    let erase = Action::Csi {
        params: vec![vec![2]],
        intermediates: vec![],
        ignore: false,
        action: 'J',
    };
    s.absorb(b'J', &vec![erase]);
    assert_eq!(s.replay(usize::MAX), b"\x1b[2J\x1b[H\x1b[0m".to_vec());
}

#[test]
fn a_chunk_never_starts_within_a_sequence() {
    // The title ends past the watermark; its `ESC \\` stays in one chunk.
    let mut s = Scanner::new(4);
    s.feed(b"\x1b]2;vim\x1b\\X");
    assert_eq!(s.replay(1), b"\x1b[0m\x1b]2;vim\x07X".to_vec());
    // A control within a sequence does not end it.
    let mut s = Scanner::new(4);
    s.feed(b"\x1b[3\n1mZ");
    assert_eq!(s.replay(usize::MAX), b"\x1b[3\n1mZ".to_vec());
    assert_eq!(s.replay(1), b"\x1b[0m\x1b[31mZ".to_vec());
}

#[test]
fn subparameters_and_large_numbers_are_tracked() {
    let mut s = Scanner::new(1);
    s.feed(b"\x1b[4:3;38:2:1:2:3m");
    assert_eq!(s.replay(1), b"\x1b[0m\x1b[4:3;38:2:1:2:3m".to_vec());
    // An empty number resets.
    s.feed(b"\x1b[99999;;7m");
    assert_eq!(s.replay(1), b"\x1b[0m\x1b[7m".to_vec());
}

#[test]
fn as_many_numbers_as_the_parser_takes_are_tracked() {
    let numbers: Vec<String> = (1..=32).map(|n| n.to_string()).collect();
    let sequence = format!("\x1b[{}m", numbers.join(";"));
    let mut s = Scanner::new(1);
    s.feed(sequence.as_bytes());
    // 22 to 25 and 27 to 29 take back what 1 to 9 and 21 set.
    assert_eq!(s.replay(1), b"\x1b[0m\x1b[19;26;32m".to_vec());
}

#[test]
fn a_capped_replay_keeps_every_attribute() {
    let mut s = Scanner::new(9);
    s.feed(b"\x1b[1m\x1b[31mX");
    assert_eq!(s.replay(1), b"\x1b[0m\x1b[1;31mX".to_vec());
    let mut s = Scanner::new(1);
    s.feed(b"\x1b[1;3m\x1b[38;5;200;48;2;1;2;3m\x1b[4m");
    assert_eq!(
        s.replay(1),
        b"\x1b[0m\x1b[1;3;38;5;200;48;2;1;2;3;4m".to_vec()
    );
    s.feed(b"\x1b[22;39m\x1b[32m");
    assert_eq!(s.replay(1), b"\x1b[0m\x1b[3;48;2;1;2;3;4;32m".to_vec());
    s.feed(b"\x1b[4:0;0;7m");
    assert_eq!(s.replay(1), b"\x1b[0m\x1b[7m".to_vec());
}

#[test]
fn the_longest_rendition_is_read_back() {
    let mut s = Scanner::new(1);
    s.feed(b"\x1b[1;2;3;4:3;5;7;8;9;11;51;53;73m");
    s.feed(b"\x1b[38:2:0:1:2:3;48:2:0:4:5:6;58:2:0:7:8:9m");
    let prologue = s.replay(1);
    assert_eq!(
        prologue,
        b"\x1b[0m\x1b[1;2;3;4:3;5;7;8;9;11;51;53;73;38:2:0:1:2:3;48:2:0:4:5:6;58:2:0:7:8:9m"
            .to_vec()
    );
    let mut t = Scanner::new(1);
    t.feed(&prologue);
    assert_eq!(t.replay(1), prologue);
}

#[test]
fn marked_sequences_are_no_rendition_and_no_region() {
    let mut s = Scanner::new(1);
    s.feed(b"\x1b[31m\x1b[2;9r\x1b[>4;2m\x1b[>1;5r\x1b[1;2 r\x1b[?7r");
    assert_eq!(s.replay(1), b"\x1b[0m\x1b[31m\x1b[2;9r".to_vec());
}

#[test]
fn a_title_is_the_whole_payload() {
    let mut s = Scanner::new(1);
    s.feed(b"\x1b]2;a;b\x07");
    assert_eq!(s.replay(1), b"\x1b[0m\x1b]2;a;b\x07".to_vec());
    // An icon name is no title, and neither is a number alone.
    s.feed(b"\x1b]1;icon\x07\x1b]2\x07");
    assert_eq!(s.replay(1), b"\x1b[0m\x1b]2;a;b\x07".to_vec());
    s.feed("\x1b]7;file:///tmp/\u{2713};x\x1b\\".as_bytes());
    assert_eq!(
        s.replay(1),
        "\x1b[0m\x1b]7;file:///tmp/\u{2713};x\x07\x1b]2;a;b\x07".as_bytes().to_vec()
    );
    // Fifteen separators, one of them behind the number.
    s.feed(b"\x1b]0;z;;;;;;;;;;;;;;end\x07");
    assert_eq!(
        s.replay(1),
        "\x1b[0m\x1b]7;file:///tmp/\u{2713};x\x07\x1b]2;z;;;;;;;;;;;;;;end\x07"
            .as_bytes()
            .to_vec()
    );
}

#[test]
fn a_full_reset_resets_the_state() {
    let s = feed(b"\x1b[31mA\x1bcB");
    assert_eq!(s.replay(usize::MAX), b"\x1b[2J\x1b[H\x1b[0mB".to_vec());
    let s = feed(b"\x1b[1m\x1b[?25l\x1b[?2004h\x1b[2;9r\x1b(0\x0e\x1b]7;c\x07\x1b]2;t\x07\x1bc");
    assert_eq!(
        s.replay(1),
        b"\x1b[2J\x1b[H\x1b[0m\x1b]7;c\x07\x1b]2;t\x07".to_vec()
    );
}

#[test]
fn questions_to_the_terminal_are_dropped() {
    for question in [
        &b"\x1b[>q"[..],
        b"\x1b[>0q",
        b"\x1b[?25$p",
        b"\x1b[4$p",
        b"\x1b[?6n",
        b"\x1b[>c",
        b"\x1b]4;1;?\x07",
        b"\x1b]10;?\x07",
        b"\x1b]11;?\x1b\\",
        b"\x1b]12;?\x9c",
        b"\x1bP+q544e\x1b\\",
        b"\x1bP$qm\x1b\\",
        b"\x1bP$q q\x9c",
    ] {
        let input = [b"A", question, b"B"].concat();
        assert_eq!(feed(&input).replay(usize::MAX), b"AB".to_vec());
        for cut in 0..input.len() {
            let mut s = Scanner::new(1);
            s.feed(&input[..cut]);
            s.feed(&input[cut..]);
            assert_eq!(s.replay(usize::MAX), b"AB".to_vec());
        }
    }
}

#[test]
fn what_only_looks_like_a_question_is_kept() {
    for kept in [
        &b"\x1b[2 q"[..],
        b"\x1b[!p",
        b"\x1b]4;1;red\x07",
        b"\x1b]10;#fff\x1b\\",
        b"\x1b]8;;?\x07",
        b"\x1bPq#0;2;0;0;0\x1b\\",
        b"\x1bP1$r0m\x1b\\",
        b"\x1bXstring\x1b\\",
        b"\x1b^message\x1b\\",
        b"\x1b_command\x1b\\",
    ] {
        let input = [b"A", kept, b"B"].concat();
        assert_eq!(feed(&input).replay(usize::MAX), input);
    }
}

#[test]
fn a_skipped_string_behind_a_dropped_osc_goes_with_it() {
    // All that the parser reports of the string is its terminator, which
    // follows the OSC.
    let s = feed(b"A\x1b]9;x\x07\x1bXstring\x1b\\B");
    assert_eq!(s.replay(usize::MAX), b"AB".to_vec());
    let s = feed(b"A\x1b]9;x\x07-\x1bXs\x1b\\B");
    assert_eq!(s.replay(usize::MAX), b"A-\x1bXs\x1b\\B".to_vec());
}

#[test]
fn character_sets_are_designated_again() {
    let mut s = Scanner::new(1);
    s.feed(b"\x1b(0\x1b)A\x1b*%5\x1b/F\x0e");
    assert_eq!(s.replay(1), b"\x1b[0m\x1b(0\x1b)A\x1b*%5\x1b/F\x0e".to_vec());
    s.feed(b"\x1b(B\x1b)B\x0f");
    assert_eq!(s.replay(1), b"\x1b[0m\x1b*%5\x1b/F".to_vec());
    s.feed(b"\x1bn");
    assert_eq!(s.replay(1), b"\x1b[0m\x1b*%5\x1b/F\x1bn".to_vec());
    s.feed(b"\x1bo\x1b%G\x1b#8");
    let prologue = s.replay(1);
    assert_eq!(prologue, b"\x1b[0m\x1b*%5\x1b/F\x1bo".to_vec());
    let mut t = Scanner::new(1);
    t.feed(&prologue);
    assert_eq!(t.replay(1), prologue);
}

#[test]
fn modes_that_are_on_by_default_are_switched_off_again() {
    let mut s = Scanner::new(1);
    s.feed(b"\x1b[?7l\x1b[?25l\x1b[?6h");
    assert_eq!(s.replay(1), b"\x1b[0m\x1b[?6h\x1b[?7l\x1b[?25l".to_vec());
    s.feed(b"\x1b[?7h\x1b[?6l");
    assert_eq!(s.replay(1), b"\x1b[0m\x1b[?7h\x1b[?25l".to_vec());
}

#[test]
fn the_ring_is_cut_behind_a_replacement_character() {
    let mut s = Scanner::new(1);
    s.feed("\u{fffd}".as_bytes());
    assert_eq!(s.replay(1), b"\x1b[0m".to_vec());
    // A character that is cut off by the next one: no cut within that.
    let mut s = Scanner::new(1);
    s.feed(b"\xe2\xc3");
    assert_eq!(s.replay(1), b"\xe2\xc3".to_vec());
    s.feed(b"\xa9");
    assert_eq!(s.replay(usize::MAX), b"\xe2\xc3\xa9".to_vec());
    assert_eq!(s.replay(1), b"\x1b[0m".to_vec());
}

#[test]
fn a_stream_may_end_anywhere() {
    let input = "a\x1b7\x1b]2;t\x1b\\\x1b]52;c;Z\x1b\\\x1bP+q00\x1b\\\x1bP1q#\x1b\\\x1bXz\x1b\\\u{2713}b";
    let kept = "a\x1b7\x1b]2;t\x1b\\\x1bP1q#\x1b\\\x1bXz\x1b\\\u{2713}b";
    let mut s = Scanner::new(128 * 1024);
    for b in input.as_bytes() {
        s.feed(&[*b]);
        // What is there so far is the start of what is kept in the end.
        assert!(kept.as_bytes().starts_with(&s.replay(usize::MAX)));
    }
    assert_eq!(s.replay(usize::MAX), kept.as_bytes().to_vec());
}

#[test]
fn sequences_over_the_limits_of_the_parser() {
    // Kept as they are, and tracked as far as the parser takes them in.
    let title = format!("\x1b]2;{}\x07", vec!["x"; 20].join(";"));
    let mut s = Scanner::new(1);
    s.feed(title.as_bytes());
    assert_eq!(s.replay(usize::MAX), title.clone().into_bytes());
    assert_eq!(
        s.replay(1),
        format!("\x1b[0m\x1b]2;{}\x07", vec!["x"; 15].join(";")).into_bytes()
    );
    let rendition = format!("\x1b[{};1;7m", vec!["3"; 31].join(";"));
    let mut s = Scanner::new(1);
    s.feed(rendition.as_bytes());
    assert_eq!(s.replay(usize::MAX), rendition.clone().into_bytes());
    assert_eq!(s.replay(1), b"\x1b[0m\x1b[3;1m".to_vec());
    let mut s = Scanner::new(1);
    s.feed(b"\x1b(((0");
    assert_eq!(s.replay(usize::MAX), b"\x1b(((0".to_vec());
    assert_eq!(s.replay(1), b"\x1b[0m".to_vec());
}

#[test]
fn controls_within_an_osc_are_not_part_of_its_payload() {
    let mut s = Scanner::new(1);
    s.feed(b"\x1b]2;a\nb\x07");
    assert_eq!(s.replay(usize::MAX), b"\x1b]2;a\nb\x07".to_vec());
    assert_eq!(s.replay(1), b"\x1b[0m\x1b]2;ab\x07".to_vec());
}

#[test]
fn bytes_that_start_no_character_are_kept() {
    let input = b"a\xff\x80\xc0\xa9b";
    assert_eq!(feed(input).replay(usize::MAX), input.to_vec());
}

#[test]
fn every_code_is_tracked() {
    let mut s = Scanner::new(1);
    s.feed(b"\x1b[20m");
    assert_eq!(s.replay(1), b"\x1b[0m\x1b[20m".to_vec());
    s.feed(b"\x1b[0;50;60;56;38:2:0:1:2:3:0:1m");
    assert_eq!(s.replay(1), b"\x1b[0m\x1b[50;60;56;38:2:0:1:2:3:0:1m".to_vec());
    s.feed(b"\x1b[0;123;38;5m");
    assert_eq!(s.replay(1), b"\x1b[0m\x1b[123;38;5m".to_vec());
    s.feed(b"\x1b[1m");
    assert_eq!(s.replay(1), b"\x1b[0m\x1b[123;1m".to_vec());
}

#[test]
fn many_attributes_are_written_in_several_sequences() {
    let mut s = Scanner::new(1);
    let mut expected = String::from("\x1b[0m");
    for n in 200..240 {
        s.feed(format!("\x1b[{n}m").as_bytes());
        expected.push_str(&format!("\x1b[{n}m"));
    }
    assert_eq!(s.replay(1), expected.clone().into_bytes());
    let mut t = Scanner::new(1);
    t.feed(expected.as_bytes());
    assert_eq!(t.replay(1), expected.into_bytes());
}

#[test]
fn colours_are_set_again() {
    let mut s = Scanner::new(1);
    s.feed(b"\x1b]4;1;red;2;#00f\x07\x1b]11;black\x1b\\");
    assert_eq!(
        s.replay(1),
        b"\x1b[0m\x1b]4;1;red\x07\x1b]4;2;#00f\x07\x1b]11;black\x07".to_vec()
    );
    // The last value counts; a question sets nothing.
    s.feed(b"\x1b]4;1;green\x07\x1b]4;2;?\x07\x1b]12;?\x07x");
    assert_eq!(
        s.replay(1),
        b"\x1b[0m\x1b]4;2;#00f\x07\x1b]11;black\x07\x1b]4;1;green\x07".to_vec()
    );
    s.feed(b"\x1b]104;2\x07\x1b]10;white;;cyan;grey\x07");
    let prologue = s.replay(1);
    assert_eq!(
        prologue,
        b"\x1b[0m\x1b]11;black\x07\x1b]4;1;green\x07\x1b]10;white\x07\x1b]12;cyan\x07".to_vec()
    );
    let mut t = Scanner::new(1);
    t.feed(&prologue);
    assert_eq!(t.replay(1), prologue);
    s.feed(b"\x1b]104\x07\x1b]110\x07\x1b]111\x07\x1b]112\x07");
    assert_eq!(s.replay(1), b"\x1b[0m".to_vec());
}

#[test]
fn an_open_link_is_opened_again() {
    let mut s = Scanner::new(1);
    s.feed(b"\x1b]8;id=1;http://x/?a;b\x1b\\");
    let prologue = s.replay(1);
    assert_eq!(prologue, b"\x1b[0m\x1b]8;id=1;http://x/?a;b\x07".to_vec());
    let mut t = Scanner::new(1);
    t.feed(&prologue);
    assert_eq!(t.replay(1), prologue);
    s.feed(b"text\x1b[0mmore");
    assert_eq!(s.replay(1), prologue);
    s.feed(b"\x1b]8;;\x1b\\");
    assert_eq!(s.replay(1), b"\x1b[0m".to_vec());
    // Too few fields are no link; a full reset closes one.
    s.feed(b"\x1b]8;x\x07");
    assert_eq!(s.replay(1), b"\x1b[0m".to_vec());
    s.feed(b"\x1b]8;;http://x\x07\x1b]4;1;red\x07\x1bc");
    assert_eq!(s.replay(1), b"\x1b[2J\x1b[H\x1b[0m".to_vec());
}
