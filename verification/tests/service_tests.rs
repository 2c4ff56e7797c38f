use vsv::config::{ProgramMode, DEFAULT_AVAIL_DIR, DEFAULT_PROC_DIR, DEFAULT_SVDIR};
use vsv::runit::RunitService;
use vsv::service::{Service, ServiceState};
use vsv::status::{decode_status, RunitServiceState};
use vsv::strutil::relative_duration;

fn build_record(tai: u64, pid: u32, paused: bool, want: u8, state: u8) -> Vec<u8> {
    let mut buf = vec![0u8; 20];
    buf[0..8].copy_from_slice(&tai.to_be_bytes());
    buf[12..16].copy_from_slice(&pid.to_le_bytes());
    buf[16] = if paused { 1 } else { 0 };
    buf[17] = want;
    buf[19] = state;
    buf
}

#[test]
fn descriptor_from_status_bytes_end_to_end() {
    // A service whose supervise/status encodes state=Run, pid=1234
    // little-endian, want='u', paused=0, and which has no down file.
    let mut svc = RunitService::new("web", "/var/service/web");
    svc.supervised = true;
    svc.down_marker = false;

    let bytes = build_record(vsv::status::TAI64_EPOCH_OFFSET + 60, 1234, false, b'u', 1);
    let status = decode_status(&bytes).unwrap();
    assert_eq!(status.pid, Some(1234));

    let desc = Service::from_runit_service(&svc, Some(status), None, false, None, None, false);
    assert_eq!(desc.name, "web");
    assert_eq!(desc.state, ServiceState::Run);
    assert_eq!(desc.pid, Some(1234));
    assert!(desc.enabled);
    assert_eq!(desc.want, 'u');
    assert!(!desc.paused);
}

#[test]
fn descriptor_degrades_to_unknown_without_status() {
    let svc = RunitService::new("broken", "/sv/broken");
    let desc = Service::from_runit_service(&svc, None, None, false, None, None, false);
    assert_eq!(desc.state, ServiceState::Unknown);
    assert_eq!(desc.pid, None);
    assert_eq!(desc.start_time, None);
    assert_eq!(desc.want, 'u');
    assert!(!desc.paused);
}

#[test]
fn status_char_variants() {
    let svc = RunitService::new("s", "/sv/s");
    let bytes = build_record(0, 9, false, b'u', 1);
    let st = decode_status(&bytes).unwrap();
    assert_eq!(st.state, RunitServiceState::Run);

    let run_up = Service::from_runit_service(&svc, Some(st), None, false, None, None, false);
    assert_eq!(run_up.format_status_char(), "✔");

    let bytes = build_record(0, 9, true, b'u', 1);
    let paused = decode_status(&bytes).unwrap();
    let run_paused = Service::from_runit_service(&svc, Some(paused), None, false, None, None, false);
    assert_eq!(run_paused.format_status_char(), "⏸");

    let bytes = build_record(0, 9, false, b'd', 1);
    let run_want_down = decode_status(&bytes).unwrap();
    let s = Service::from_runit_service(&svc, Some(run_want_down), None, false, None, None, false);
    assert_eq!(s.format_status_char(), "▼");

    let bytes = build_record(0, 0, false, b'u', 0);
    let down_want_up = decode_status(&bytes).unwrap();
    let s = Service::from_runit_service(&svc, Some(down_want_up), None, false, None, None, false);
    assert_eq!(s.format_status_char(), "X");

    let bytes = build_record(0, 0, false, b'd', 0);
    let down_want_down = decode_status(&bytes).unwrap();
    let s = Service::from_runit_service(&svc, Some(down_want_down), None, false, None, None, false);
    assert_eq!(s.format_status_char(), "■");
}

#[test]
fn format_columns() {
    let mut svc = RunitService::new("db", "/sv/db");
    svc.down_marker = true;
    let bytes = build_record(vsv::status::TAI64_EPOCH_OFFSET + 100, 77, false, b'u', 1);
    let st = decode_status(&bytes).unwrap();
    let desc = Service::from_runit_service(
        &svc,
        Some(st),
        None,
        false,
        Some("postgres -D /data".to_string()),
        None,
        false,
    );
    assert_eq!(desc.format_name(), "db");
    assert_eq!(desc.format_state(), "run");
    assert_eq!(desc.format_enabled(), "false");
    assert_eq!(desc.format_pid(), "77");
    assert_eq!(desc.format_command(), "postgres -D /data");
    assert_eq!(desc.format_pstree(), "");
    assert_eq!(desc.format_log(), "");
}

#[test]
fn format_time_relative_to_now() {
    let svc = RunitService::new("t", "/sv/t");
    let bytes = build_record(vsv::status::TAI64_EPOCH_OFFSET + 1000, 1, false, b'u', 1);
    let st = decode_status(&bytes).unwrap();
    let desc = Service::from_runit_service(&svc, Some(st), None, false, None, None, false);
    assert_eq!(desc.format_time(1000 + 90), "1 minute");
    assert_eq!(desc.format_time(1000 + 7200), "2 hours");
    assert_eq!(desc.format_time(500), "n/a");
}

#[test]
fn format_log_column_states() {
    let svc = RunitService::new("s", "/sv/s");
    let bytes = build_record(0, 8, false, b'u', 1);
    let log_st = decode_status(&bytes).unwrap();

    let no_log = Service::from_runit_service(&svc, None, None, false, None, None, true);
    assert_eq!(no_log.format_log(), "-");

    let with_log = Service::from_runit_service(&svc, None, Some(log_st), true, None, None, true);
    assert_eq!(with_log.format_log(), "✔");

    let disabled_log =
        Service::from_runit_service(&svc, None, Some(log_st), false, None, None, true);
    assert_eq!(disabled_log.format_log(), "✔ -");
}

#[test]
fn format_pstree_frames_tree() {
    let svc = RunitService::new("s", "/sv/s");
    let desc = Service::from_runit_service(
        &svc,
        None,
        None,
        false,
        None,
        Some("init\n└─child".to_string()),
        false,
    );
    assert_eq!(desc.format_pstree(), "\ninit\n└─child\n");
}

#[test]
fn state_chars_and_labels() {
    assert_eq!(ServiceState::Run.get_char(), "✔");
    assert_eq!(ServiceState::Down.get_char(), "X");
    assert_eq!(ServiceState::Finish.get_char(), "X");
    assert_eq!(ServiceState::Unknown.get_char(), "?");
    assert_eq!(ServiceState::Run.label(), "run");
    assert_eq!(ServiceState::Down.label(), "down");
    assert_eq!(ServiceState::Finish.label(), "finish");
    assert_eq!(ServiceState::Unknown.label(), "n/a");
}

#[test]
fn relative_durations_exact() {
    assert_eq!(relative_duration(0), "0 seconds");
    assert_eq!(relative_duration(1), "1 second");
    assert_eq!(relative_duration(59), "59 seconds");
    assert_eq!(relative_duration(60), "1 minute");
    assert_eq!(relative_duration(120), "2 minutes");
    assert_eq!(relative_duration(3600), "1 hour");
    assert_eq!(relative_duration(86400), "1 day");
    assert_eq!(relative_duration(86400 * 30), "1 month");
    assert_eq!(relative_duration(86400 * 365), "1 year");
    assert_eq!(relative_duration(86400 * 365 * 3), "3 years");
}

#[test]
fn program_mode_labels() {
    assert_eq!(ProgramMode::Status.label(), "status");
    assert_eq!(ProgramMode::Enable.label(), "enable");
    assert_eq!(ProgramMode::Disable.label(), "disable");
    assert_eq!(ProgramMode::Control.label(), "control");
    assert_eq!(ProgramMode::Log.label(), "log");
    assert_eq!(ProgramMode::Add.label(), "add");
    assert_eq!(ProgramMode::Remove.label(), "remove");
    assert_eq!(ProgramMode::Avail.label(), "avail");
}

#[test]
fn default_directories() {
    assert_eq!(DEFAULT_SVDIR, "/var/service");
    assert_eq!(DEFAULT_PROC_DIR, "/proc");
    assert_eq!(DEFAULT_AVAIL_DIR, "/etc/sv");
}
