use vsv::pstree::{
    get_pstree, proc_display_name, stat_comm, stat_ppid, thread_display_name, ProcNode,
};

fn node(pid: u32, ppid: u32, name: &str) -> ProcNode {
    ProcNode { pid, ppid, name: name.to_string(), is_thread: false }
}

#[test]
fn stat_ppid_reads_second_field_after_paren() {
    assert_eq!(stat_ppid("1234 (cron) S 1 1234 1234 0"), 1);
    assert_eq!(stat_ppid("77 (weird name) with spaces) R 42 7"), 42);
}

#[test]
fn stat_ppid_degrades_to_zero() {
    assert_eq!(stat_ppid("no parens here"), 0);
    assert_eq!(stat_ppid("1234 (cron)"), 0);
    assert_eq!(stat_ppid("1234 (cron) S"), 0);
    assert_eq!(stat_ppid("1234 (cron) S notanumber"), 0);
}

#[test]
fn stat_comm_takes_outer_parens() {
    assert_eq!(stat_comm("12 (a (b) c) S 1").unwrap(), "a (b) c");
    assert_eq!(stat_comm("no parens"), None);
}

#[test]
fn display_name_prefers_cmdline() {
    let name = proc_display_name(9, "9 (comm) S 1", Some("/bin/prog\0--flag\0"));
    assert_eq!(name, "/bin/prog --flag");
}

#[test]
fn display_name_falls_back_to_comm_then_pid() {
    assert_eq!(proc_display_name(9, "9 (comm) S 1", Some("")), "comm");
    assert_eq!(proc_display_name(9, "no parens", Some("")), "9");
    assert_eq!(proc_display_name(9, "9 (comm) S 1", None), "9");
}

#[test]
fn thread_names_are_bracketed() {
    assert_eq!(thread_display_name("7 (worker) S 1").unwrap(), "{worker}");
    assert_eq!(thread_display_name("garbage"), None);
}

#[test]
fn tree_renders_connectors_and_sorted_children() {
    let table = vec![
        node(1, 0, "init"),
        node(30, 1, "late"),
        node(20, 1, "early"),
        node(40, 30, "leaf"),
    ];
    let out = get_pstree(1, &table);
    let expected = "init\n├─early\n└─late\n  └─leaf";
    assert_eq!(out, expected);
}

#[test]
fn tree_middle_child_gets_bar_prefix() {
    let table = vec![
        node(1, 0, "root"),
        node(2, 1, "a"),
        node(3, 1, "b"),
        node(4, 2, "under_a"),
    ];
    let out = get_pstree(1, &table);
    let expected = "root\n├─a\n│ └─under_a\n└─b";
    assert_eq!(out, expected);
}

#[test]
fn tree_missing_root_is_empty() {
    let table = vec![node(1, 0, "init")];
    assert_eq!(get_pstree(99, &table), "");
}

#[test]
fn tree_cycle_renders_finite_without_duplicates() {
    // 10 and 20 claim each other as parent: the walk must terminate and
    // render each pid at most once.
    let table = vec![node(10, 20, "ten"), node(20, 10, "twenty")];
    let out = get_pstree(10, &table);
    assert_eq!(out, "ten\n└─twenty");
    assert_eq!(out.lines().count(), 2);
}

#[test]
fn tree_self_parent_is_not_repeated() {
    let table = vec![node(5, 5, "selfish")];
    let out = get_pstree(5, &table);
    assert_eq!(out, "selfish");
}

#[test]
fn tree_children_sort_numerically() {
    let table = vec![
        node(1, 0, "root"),
        node(10, 1, "ten"),
        node(2, 1, "two"),
    ];
    let out = get_pstree(1, &table);
    assert_eq!(out, "root\n├─two\n└─ten");
}
