//! Decoding of the fixed-layout 20-byte status record a supervisor keeps
//! under `supervise/status`.
//!
//! Layout: bytes 0..8 hold big-endian TAI64 seconds, bytes 12..16 a
//! little-endian process id (0 meaning none), byte 16 the paused flag,
//! byte 17 the raw "want" character and byte 19 the state byte.

use vstd::prelude::*;

verus! {

/// Offset subtracted from the raw TAI64 seconds value to obtain seconds
/// since the epoch; a raw value below it yields no timestamp.
pub const TAI64_EPOCH_OFFSET: u64 = 4611686018427387914;

/// Exact length in bytes of a supervisor status record.
pub const STATUS_RECORD_LEN: usize = 20;

/// State a supervised service can be in, as reported by its status record.
#[derive(Clone, Copy, Debug, PartialEq, Eq, Structural)]
pub enum RunitServiceState {
    Run,
    Down,
    Finish,
    Unknown,
}

/// A decoded status record.
#[derive(Clone, Copy, Debug, PartialEq, Eq)]
pub struct RunitStatus {
    pub state: RunitServiceState,
    /// Process id of the running service; `None` when the record holds 0.
    pub pid: Option<u32>,
    /// Seconds since the epoch at which the service was started; `None`
    /// when the raw TAI64 value lies before the epoch offset.
    pub start_time: Option<u64>,
    /// The supervisor's intended state, stored as a raw character
    /// (`'u'` for up, `'d'` for down).
    pub want: char,
    pub paused: bool,
}

/// Why a status record failed to decode: only a wrong length can.
#[derive(Clone, Copy, Debug, PartialEq, Eq, Structural)]
pub enum DecodeError {
    InvalidLength,
}

/// Big-endian 64-bit value of an 8-byte sequence.
pub open spec fn be64(b: Seq<u8>) -> u64
    recommends
        b.len() == 8,
{
    ((b[0] as u64) << 56) | ((b[1] as u64) << 48) | ((b[2] as u64) << 40) | ((b[3] as u64) << 32)
        | ((b[4] as u64) << 24) | ((b[5] as u64) << 16) | ((b[6] as u64) << 8) | (b[7] as u64)
}

/// Little-endian 32-bit value of a 4-byte sequence.
pub open spec fn le32(b: Seq<u8>) -> u32
    recommends
        b.len() == 4,
{
    (b[0] as u32) | ((b[1] as u32) << 8) | ((b[2] as u32) << 16) | ((b[3] as u32) << 24)
}

/// State encoded by the record's final byte.
pub open spec fn state_of_byte(b: u8) -> RunitServiceState {
    if b == 0 {
        RunitServiceState::Down
    } else if b == 1 {
        RunitServiceState::Run
    } else if b == 2 {
        RunitServiceState::Finish
    } else {
        RunitServiceState::Unknown
    }
}

/// Timestamp derived from a raw TAI64 seconds value: absent when the value
/// lies before the epoch offset, otherwise the difference.
pub open spec fn start_time_of_tai(tai: u64) -> Option<u64> {
    if tai >= TAI64_EPOCH_OFFSET {
        Some((tai - TAI64_EPOCH_OFFSET) as u64)
    } else {
        None
    }
}

/// The record decoded from a well-sized buffer.
pub open spec fn decode_ok(b: Seq<u8>) -> RunitStatus
    recommends
        b.len() == STATUS_RECORD_LEN,
{
    RunitStatus {
        state: state_of_byte(b[19]),
        pid: if le32(b.subrange(12, 16)) > 0 {
            Some(le32(b.subrange(12, 16)))
        } else {
            None
        },
        start_time: start_time_of_tai(be64(b.subrange(0, 8))),
        want: b[17] as char,
        paused: b[16] == 1,
    }
}

/// What `decode_status` returns for any input buffer.
pub open spec fn decode_spec(b: Seq<u8>) -> Result<RunitStatus, DecodeError> {
    if b.len() == STATUS_RECORD_LEN {
        Ok(decode_ok(b))
    } else {
        Err(DecodeError::InvalidLength)
    }
}

/// Decode a status record. Fails with `InvalidLength` unless the buffer is
/// exactly 20 bytes; a well-sized buffer always decodes, a pre-epoch
/// timestamp or a zero pid merely leaving the matching field absent.
pub fn decode_status(buf: &[u8]) -> (r: Result<RunitStatus, DecodeError>)
    ensures
        r == decode_spec(buf@),
{
    if buf.len() != STATUS_RECORD_LEN {
        return Err(DecodeError::InvalidLength);
    }
    let tai: u64 = ((buf[0] as u64) << 56) | ((buf[1] as u64) << 48) | ((buf[2] as u64) << 40)
        | ((buf[3] as u64) << 32) | ((buf[4] as u64) << 24) | ((buf[5] as u64) << 16)
        | ((buf[6] as u64) << 8) | (buf[7] as u64);
    let pid_raw: u32 = (buf[12] as u32) | ((buf[13] as u32) << 8) | ((buf[14] as u32) << 16)
        | ((buf[15] as u32) << 24);
    proof {
        assert(tai == be64(buf@.subrange(0, 8)));
        assert(pid_raw == le32(buf@.subrange(12, 16)));
    }
    let state = match buf[19] {
        0 => RunitServiceState::Down,
        1 => RunitServiceState::Run,
        2 => RunitServiceState::Finish,
        _ => RunitServiceState::Unknown,
    };
    let pid = if pid_raw > 0 {
        Some(pid_raw)
    } else {
        None
    };
    let start_time = if tai >= TAI64_EPOCH_OFFSET {
        Some(tai - TAI64_EPOCH_OFFSET)
    } else {
        None
    };
    Ok(RunitStatus { state, pid, start_time, want: buf[17] as char, paused: buf[16] == 1 })
}

/// A status record built from chosen field values: the timestamp big-endian
/// in bytes 0..8, the pid little-endian in bytes 12..16, the paused flag in
/// byte 16, the want character in byte 17, the state in byte 19, and zeroes
/// elsewhere.
pub open spec fn status_record_bytes(
    tai: u64,
    pid: u32,
    paused: bool,
    want_byte: u8,
    state_byte: u8,
) -> Seq<u8> {
    seq![
        (tai >> 56) as u8,
        (tai >> 48) as u8,
        (tai >> 40) as u8,
        (tai >> 32) as u8,
        (tai >> 24) as u8,
        (tai >> 16) as u8,
        (tai >> 8) as u8,
        tai as u8,
        0u8,
        0u8,
        0u8,
        0u8,
        pid as u8,
        (pid >> 8) as u8,
        (pid >> 16) as u8,
        (pid >> 24) as u8,
        if paused {
            1u8
        } else {
            0u8
        },
        want_byte,
        0u8,
        state_byte,
    ]
}

/// Law: decoding a record built from any chosen state, pid, want, paused
/// and timestamp fields reproduces exactly those fields.
pub proof fn lemma_decode_built_record(
    tai: u64,
    pid: u32,
    paused: bool,
    want_byte: u8,
    state_byte: u8,
)
    ensures
        decode_spec(status_record_bytes(tai, pid, paused, want_byte, state_byte)) == Ok::<
            RunitStatus,
            DecodeError,
        >(
            RunitStatus {
                state: state_of_byte(state_byte),
                pid: if pid > 0 {
                    Some(pid)
                } else {
                    None
                },
                start_time: start_time_of_tai(tai),
                want: want_byte as char,
                paused: paused,
            },
        ),
{
    let b = status_record_bytes(tai, pid, paused, want_byte, state_byte);
    assert(b.len() == STATUS_RECORD_LEN);
    assert(((((tai >> 56) as u8) as u64) << 56) | ((((tai >> 48) as u8) as u64) << 48) | ((((tai
        >> 40) as u8) as u64) << 40) | ((((tai >> 32) as u8) as u64) << 32) | ((((tai >> 24) as u8)
        as u64) << 24) | ((((tai >> 16) as u8) as u64) << 16) | ((((tai >> 8) as u8) as u64) << 8)
        | ((tai as u8) as u64) == tai) by (bit_vector);
    assert(((pid as u8) as u32) | ((((pid >> 8) as u8) as u32) << 8) | ((((pid >> 16) as u8) as u32)
        << 16) | ((((pid >> 24) as u8) as u32) << 24) == pid) by (bit_vector);
    assert(be64(b.subrange(0, 8)) == tai);
    assert(le32(b.subrange(12, 16)) == pid);
}

/// Law: a buffer of any length other than 20 always fails to decode, and
/// with `InvalidLength` in particular.
pub proof fn lemma_decode_wrong_length(b: Seq<u8>)
    requires
        b.len() != STATUS_RECORD_LEN,
    ensures
        decode_spec(b) == Err::<RunitStatus, DecodeError>(DecodeError::InvalidLength),
{
}

/// Law: a raw TAI64 value exactly at the epoch offset decodes to the epoch
/// timestamp zero, and a value one below it to an absent timestamp.
pub proof fn lemma_epoch_offset_boundary(pid: u32, paused: bool, want_byte: u8, state_byte: u8)
    ensures
        decode_ok(status_record_bytes(TAI64_EPOCH_OFFSET, pid, paused, want_byte, state_byte))
            .start_time == Some(0u64),
        decode_ok(
            status_record_bytes(
                (TAI64_EPOCH_OFFSET - 1) as u64,
                pid,
                paused,
                want_byte,
                state_byte,
            ),
        ).start_time == None::<u64>,
{
    lemma_decode_built_record(TAI64_EPOCH_OFFSET, pid, paused, want_byte, state_byte);
    lemma_decode_built_record((TAI64_EPOCH_OFFSET - 1) as u64, pid, paused, want_byte, state_byte);
}

} // verus!
