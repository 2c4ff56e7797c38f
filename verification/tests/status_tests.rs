use vsv::status::{decode_status, DecodeError, RunitServiceState, RunitStatus, STATUS_RECORD_LEN,
    TAI64_EPOCH_OFFSET};

/// A 20-byte status record with the given fields, laid out as the
/// supervisor writes it.
fn build_record(tai: u64, pid: u32, paused: bool, want: u8, state: u8) -> Vec<u8> {
    let mut buf = vec![0u8; 20];
    buf[0..8].copy_from_slice(&tai.to_be_bytes());
    buf[12..16].copy_from_slice(&pid.to_le_bytes());
    buf[16] = if paused { 1 } else { 0 };
    buf[17] = want;
    buf[19] = state;
    buf
}

#[test]
fn decode_reproduces_chosen_fields() {
    let tai = TAI64_EPOCH_OFFSET + 987_654;
    let buf = build_record(tai, 4321, true, b'd', 2);
    let st = decode_status(&buf).unwrap();
    assert_eq!(st.state, RunitServiceState::Finish);
    assert_eq!(st.pid, Some(4321));
    assert_eq!(st.start_time, Some(987_654));
    assert_eq!(st.want, 'd');
    assert!(st.paused);
}

#[test]
fn decode_state_bytes() {
    for (byte, state) in [
        (0u8, RunitServiceState::Down),
        (1, RunitServiceState::Run),
        (2, RunitServiceState::Finish),
        (3, RunitServiceState::Unknown),
        (255, RunitServiceState::Unknown),
    ] {
        let buf = build_record(TAI64_EPOCH_OFFSET, 1, false, b'u', byte);
        assert_eq!(decode_status(&buf).unwrap().state, state);
    }
}

#[test]
fn decode_zero_pid_is_none() {
    let buf = build_record(TAI64_EPOCH_OFFSET, 0, false, b'u', 1);
    assert_eq!(decode_status(&buf).unwrap().pid, None);
}

#[test]
fn decode_pid_little_endian() {
    let mut buf = build_record(TAI64_EPOCH_OFFSET, 0, false, b'u', 1);
    buf[12] = 0xD2;
    buf[13] = 0x04;
    let st = decode_status(&buf).unwrap();
    assert_eq!(st.pid, Some(1234));
}

#[test]
fn decode_wrong_length_fails() {
    for len in [0usize, 1, 19, 21, 40] {
        let buf = vec![0u8; len];
        assert_eq!(decode_status(&buf), Err(DecodeError::InvalidLength));
    }
    assert_eq!(STATUS_RECORD_LEN, 20);
}

#[test]
fn decode_epoch_boundary() {
    let at_offset = build_record(TAI64_EPOCH_OFFSET, 1, false, b'u', 1);
    assert_eq!(decode_status(&at_offset).unwrap().start_time, Some(0));

    let below_offset = build_record(TAI64_EPOCH_OFFSET - 1, 1, false, b'u', 1);
    assert_eq!(decode_status(&below_offset).unwrap().start_time, None);
}

#[test]
fn decode_is_pure_on_equal_input() {
    let buf = build_record(TAI64_EPOCH_OFFSET + 7, 99, false, b'u', 1);
    let a: Result<RunitStatus, DecodeError> = decode_status(&buf);
    let b = decode_status(&buf);
    assert_eq!(a, b);
}

#[test]
fn decode_all_zero_record() {
    let buf = vec![0u8; 20];
    let st = decode_status(&buf).unwrap();
    assert_eq!(st.state, RunitServiceState::Down);
    assert_eq!(st.pid, None);
    assert_eq!(st.start_time, None);
    assert!(!st.paused);
}
