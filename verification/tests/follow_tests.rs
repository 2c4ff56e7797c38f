use vsv::follow::{select_tail_lines, split_lines, tail_start, LogFollowState};

#[test]
fn tail_start_zero_when_reading_all() {
    assert_eq!(tail_start(1_000_000, 10, true), 0);
}

#[test]
fn tail_start_uses_floor_for_small_requests() {
    // 10 lines estimate 2000 bytes, below the 8 KiB floor.
    assert_eq!(tail_start(100_000, 10, false), 100_000 - 8192);
}

#[test]
fn tail_start_uses_estimate_above_floor() {
    // 100 lines estimate 20000 bytes, above the floor.
    assert_eq!(tail_start(100_000, 100, false), 80_000);
}

#[test]
fn tail_start_never_negative() {
    assert_eq!(tail_start(100, 10, false), 0);
    assert_eq!(tail_start(8192, 1, false), 0);
}

#[test]
fn split_lines_handles_endings() {
    let lines = split_lines("a\nb\r\nc");
    assert_eq!(lines, ["a", "b", "c"]);
    let lines = split_lines("a\nb\n");
    assert_eq!(lines, ["a", "b"]);
    assert!(split_lines("").is_empty());
}

#[test]
fn last_ten_of_hundred_lines_in_order() {
    let mut content = String::new();
    for i in 1..=100 {
        content.push_str(&format!("line {}\n", i));
    }
    let out = select_tail_lines(&content, "", 10, false);
    assert_eq!(out.len(), 10);
    for (k, line) in out.iter().enumerate() {
        assert_eq!(line, &format!("line {}", 91 + k));
    }
}

#[test]
fn read_all_keeps_every_matching_line() {
    let out = select_tail_lines("a\nb\na\n", "a", 1, true);
    assert_eq!(out, ["a", "a"]);
}

#[test]
fn filter_retains_matching_lines_only() {
    let out = select_tail_lines("alpha\nbeta\ngamma\n", "am", 10, false);
    assert_eq!(out, ["gamma"]);
}

#[test]
fn empty_filter_matches_everything() {
    let out = select_tail_lines("x\ny\n", "", 10, false);
    assert_eq!(out, ["x", "y"]);
}

#[test]
fn chunks_yield_complete_lines_and_buffer_fragment() {
    let mut st = LogFollowState::new(0);
    let out = st.process_chunk("hel", "");
    assert!(out.is_empty());
    assert_eq!(st.partial, "hel");
    assert_eq!(st.pos, 3);

    let out = st.process_chunk("lo\nwor", "");
    assert_eq!(out, ["hello"]);
    assert_eq!(st.partial, "wor");
    assert_eq!(st.pos, 9);

    let out = st.process_chunk("ld\n", "");
    assert_eq!(out, ["world"]);
    assert_eq!(st.partial, "");
}

#[test]
fn chunk_lines_are_filtered_and_trimmed() {
    let mut st = LogFollowState::new(0);
    let out = st.process_chunk("match one  \r\nother\nmatch two\n", "match");
    assert_eq!(out, ["match one", "match two"]);
}

#[test]
fn truncation_detected_only_below_position() {
    let mut st = LogFollowState::new(0);
    let _ = st.process_chunk("0123456789", "");
    assert_eq!(st.pos, 10);
    assert!(!st.truncated(Some(10)));
    assert!(!st.truncated(Some(50)));
    assert!(st.truncated(Some(9)));
    assert!(!st.truncated(None));
}

#[test]
fn truncation_reset_clears_state_without_losing_later_lines() {
    let mut st = LogFollowState::new(0);
    let _ = st.process_chunk("partial without newline", "");
    assert!(st.truncated(Some(0)));
    st.reset_after_truncation();
    assert_eq!(st.pos, 0);
    assert_eq!(st.partial, "");

    // Lines appended after the reopen still come through.
    let out = st.process_chunk("fresh line\n", "");
    assert_eq!(out, ["fresh line"]);
    assert_eq!(st.pos, 11);
}
