use vsv::runit::{
    control_send_result, get_services, join_path, restart_commands, ControlError, RunitCommand,
    RunitService, ServiceDirEntry,
};

fn entry(name: &str, is_dir: bool, has_log: bool) -> ServiceDirEntry {
    ServiceDirEntry { name: name.to_string(), is_dir, has_log }
}

#[test]
fn list_sorts_names_and_skips_files() {
    let entries = vec![
        entry("a", true, false),
        entry("c", true, false),
        entry("b", true, false),
        entry("notes.txt", false, false),
    ];
    let services = get_services("/var/service", &entries, false, None);
    let names: Vec<&str> = services.iter().map(|s| s.name.as_str()).collect();
    assert_eq!(names, ["a", "b", "c"]);
    assert_eq!(services[0].path.as_str(), "/var/service/a");
}

#[test]
fn list_filter_keeps_only_matching_names() {
    let entries = vec![
        entry("proxy", true, false),
        entry("xorg", true, false),
        entry("cron", true, false),
        entry("sshd", true, false),
    ];
    let services = get_services("/sv", &entries, false, Some("x"));
    let names: Vec<&str> = services.iter().map(|s| s.name.as_str()).collect();
    assert_eq!(names, ["proxy", "xorg"]);
    for s in &services {
        assert!(s.name.contains('x'));
    }
}

#[test]
fn list_filter_is_unanchored_substring() {
    let entries = vec![entry("dhcpcd", true, false), entry("cupsd", true, false)];
    let services = get_services("/sv", &entries, false, Some("cpc"));
    let names: Vec<&str> = services.iter().map(|s| s.name.as_str()).collect();
    assert_eq!(names, ["dhcpcd"]);
}

#[test]
fn list_appends_log_subservice_after_parent() {
    let entries = vec![entry("b", true, true), entry("a", true, false)];
    let services = get_services("/sv", &entries, true, None);
    let names: Vec<&str> = services.iter().map(|s| s.name.as_str()).collect();
    assert_eq!(names, ["a", "b", "- log"]);
    assert_eq!(services[2].path.as_str(), "/sv/b/log");
}

#[test]
fn list_without_log_flag_has_no_log_entries() {
    let entries = vec![entry("b", true, true)];
    let services = get_services("/sv", &entries, false, None);
    assert_eq!(services.len(), 1);
    assert_eq!(services[0].name.as_str(), "b");
}

#[test]
fn service_paths_follow_convention() {
    let svc = RunitService::new("cron", "/var/service/cron");
    assert_eq!(svc.supervise_path().as_str(), "/var/service/cron/supervise");
    assert_eq!(
        svc.control_pipe_path().as_str(),
        "/var/service/cron/supervise/control"
    );
    assert_eq!(svc.status_path().as_str(), "/var/service/cron/supervise/status");
    assert_eq!(svc.down_path().as_str(), "/var/service/cron/down");
    assert_eq!(svc.log_path().as_str(), "/var/service/cron/log");
}

#[test]
fn new_service_starts_unprobed() {
    let svc = RunitService::new("cron", "/var/service/cron");
    assert!(!svc.valid());
    assert!(svc.enabled());
    assert!(!svc.log_running());
}

#[test]
fn probed_fields_drive_getters() {
    let mut svc = RunitService::new("cron", "/var/service/cron");
    svc.supervised = true;
    svc.down_marker = true;
    svc.log_pid = Some(42);
    assert!(svc.valid());
    assert!(!svc.enabled());
    assert!(svc.log_running());
}

#[test]
fn join_path_inserts_separator() {
    assert_eq!(join_path("/etc/sv", "cron").as_str(), "/etc/sv/cron");
}

#[test]
fn command_characters() {
    let cases = [
        (RunitCommand::Up, 'u'),
        (RunitCommand::Down, 'd'),
        (RunitCommand::Once, 'o'),
        (RunitCommand::Pause, 'p'),
        (RunitCommand::Cont, 'c'),
        (RunitCommand::Hup, 'h'),
        (RunitCommand::Alarm, 'a'),
        (RunitCommand::Interrupt, 'i'),
        (RunitCommand::Quit, 'q'),
        (RunitCommand::Term, 't'),
        (RunitCommand::Kill, 'k'),
        (RunitCommand::Exit, 'x'),
    ];
    for (cmd, ch) in cases {
        assert_eq!(cmd.to_char(), ch);
        assert_eq!(cmd.to_byte(), ch as u8);
    }
}

#[test]
fn restart_is_term_cont_up() {
    let seq = restart_commands();
    assert_eq!(
        seq,
        vec![RunitCommand::Term, RunitCommand::Cont, RunitCommand::Up]
    );
}

#[test]
fn send_without_pipe_is_not_supervised() {
    assert_eq!(
        control_send_result(false, false),
        Err(ControlError::NotSupervised)
    );
    assert_eq!(
        control_send_result(false, true),
        Err(ControlError::NotSupervised)
    );
}

#[test]
fn send_failures_and_success_classified() {
    assert_eq!(control_send_result(true, false), Err(ControlError::IOFailure));
    assert_eq!(control_send_result(true, true), Ok(()));
}

#[test]
fn list_of_empty_directory_is_empty() {
    let entries: Vec<ServiceDirEntry> = Vec::new();
    assert!(get_services("/sv", &entries, true, None).is_empty());
}
