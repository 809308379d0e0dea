use rstree::logging::{get_logging_prefix, get_logging_prefix_for_level, LogLevel};
use rstree::print::{dfs_write, generate_prefix, get_name, render_to_string, PrefixFragment};
use rstree::proc::linux_proc::{
    dedup_records, get_process_tree, is_process_dir, parse_proc_stat, parse_stat_str, split_keep,
    LinuxProvider, LINUX_PROC_DIR, ROOT_PROC_NAME,
};
use rstree::proc::{Process, ProcessStat};
use rstree::text::{parse_i32, parse_u32, parse_u64};

fn rec(pid: u32, ppid: u32, name: &str) -> ProcessStat {
    let mut s = ProcessStat::default();
    s.pid = pid;
    s.ppid = ppid;
    s.name = name.to_string();
    s
}

#[test]
fn test_parse_stat_str() {
    let stat_str = " S 0 0 0 0 -1 2129984 0 0 0 0 0 391 0 0 20 0 1 0 7 0 0 18446744073709551615 0 0 0 0 0 0 0 2147483647 0 0 0 0 0 1 0 0 0 0 0 0 0 0 0 0 0 0 0";
    let mut process_stat = ProcessStat::default();
    parse_stat_str(&mut process_stat, stat_str);

    assert_eq!(process_stat.state, 'S');
    assert_eq!(process_stat.ppid, 0);
    assert_eq!(process_stat.pgrp, 0);
    assert_eq!(process_stat.session, 0);
    assert_eq!(process_stat.tty_nr, 0);
    assert_eq!(process_stat.tpgid, -1);
    assert_eq!(process_stat.flags, 2129984);
    assert_eq!(process_stat.minflt, 0);
    assert_eq!(process_stat.cminflt, 0);
    assert_eq!(process_stat.majflt, 0);
    assert_eq!(process_stat.cmajflt, 0);
    assert_eq!(process_stat.utime, 0);
    assert_eq!(process_stat.cutime, 391);
    assert_eq!(process_stat.stime, 0);
    assert_eq!(process_stat.cstime, 0);
    assert_eq!(process_stat.priority, 20);
    assert_eq!(process_stat.nice, 0);
    assert_eq!(process_stat.nthreads, 1);
}

#[test]
fn test_split() {
    let stat_str = "2 (kthreadd) S 0 0 0 0 -1 2129984 0 0 0 0 0 391 0 0 20 0 1 0 7 0 0 18446744073709551615 0 0 0 0 0 0 0 2147483647 0 0 0 0 0 1 0 0 0 0 0 0 0 0 0 0 0 0 0";
    let fields: Vec<String> = split_keep(stat_str);

    assert_eq!(fields.len(), 3);
}

#[test]
fn split_keep_pieces() {
    let fields = split_keep("2 (kthreadd) S 0");
    assert_eq!(fields, vec!["2 ", "(kthreadd)", " S 0"]);
    assert_eq!(split_keep("no parens here").len(), 1);
    assert_eq!(split_keep("").len(), 0);
}

#[test]
fn parse_whole_stat_file() {
    let contents = "1 (systemd) S 0 1 1 0 -1 4194560 0 0 0 0 0 391 0 0 20 0 1 0 7 0 0 18446744073709551615 0\n";
    let stat = parse_proc_stat(contents).unwrap();
    assert_eq!(stat.pid, 1);
    assert_eq!(stat.name, "systemd");
    assert_eq!(stat.state, 'S');
    assert_eq!(stat.ppid, 0);
    assert_eq!(stat.session, 1);
    assert_eq!(stat.tpgid, -1);
    assert_eq!(stat.flags, 4194560);
    assert_eq!(stat.cutime, 391);
    assert_eq!(stat.priority, 20);
    assert!(parse_proc_stat("no name here").is_none());
    assert!(parse_proc_stat("").is_none());
}

#[test]
fn parse_stat_str_rejects_overflowing_field() {
    // The parent pid group must fit a u32.
    let stat_str = "S 99999999999 0 0 0 -1 0 0 0 0 0 0 0 0 0 0 0 1 0";
    let mut process_stat = ProcessStat::default();
    assert!(parse_stat_str(&mut process_stat, stat_str).is_none());
    // The stat is left untouched.
    assert_eq!(process_stat.ppid, 0);
    assert_eq!(process_stat.state, '\0');
}

#[test]
fn renders_example_tree() {
    let records = vec![
        rec(1, 0, "init"),
        rec(2, 1, "sshd"),
        rec(3, 1, "cron"),
        rec(4, 2, "bash"),
    ];
    let tree = get_process_tree(&records, 1).unwrap();
    let out = render_to_string(&tree, false);
    assert_eq!(out, "init─┬─sshd───bash\n     └─cron");
}

#[test]
fn renders_example_tree_with_pids() {
    let records = vec![
        rec(1, 0, "init"),
        rec(2, 1, "sshd"),
        rec(3, 1, "cron"),
        rec(4, 2, "bash"),
    ];
    let tree = get_process_tree(&records, 1).unwrap();
    let out = render_to_string(&tree, true);
    assert_eq!(out, "init(1)─┬─sshd(2)───bash(4)\n        └─cron(3)");
}

#[test]
fn toggling_identifiers_keeps_shape() {
    let records = vec![
        rec(1, 0, "init"),
        rec(2, 1, "sshd"),
        rec(3, 1, "cron"),
        rec(4, 2, "bash"),
    ];
    let tree = get_process_tree(&records, 1).unwrap();
    let plain = render_to_string(&tree, false);
    let with_ids = render_to_string(&tree, true);
    assert_eq!(plain.lines().count(), with_ids.lines().count());
    // Stripping every "(pid)" suffix gives back the plain names in order.
    assert!(with_ids.replace("(1)", "").replace("(2)", "").replace("(3)", "").replace("(4)", "")
        .lines()
        .zip(plain.lines())
        .all(|(a, b)| {
            a.trim_start_matches([' ', '│', '└', '├', '┬', '─']) == b.trim_start_matches([
                ' ', '│', '└', '├', '┬', '─',
            ])
        }));
}

#[test]
fn rendering_is_deterministic() {
    let records = vec![rec(1, 0, "init"), rec(2, 1, "a"), rec(3, 1, "b"), rec(4, 3, "c")];
    let tree = get_process_tree(&records, 0).unwrap();
    let once = render_to_string(&tree, true);
    let twice = render_to_string(&tree, true);
    assert_eq!(once, twice);
}

#[test]
fn renders_single_node_as_bare_name() {
    let records = vec![rec(7, 0, "lonely")];
    let tree = get_process_tree(&records, 7).unwrap();
    let out = render_to_string(&tree, false);
    assert_eq!(out, "lonely");
    assert!(!out.contains('\n'));
}

#[test]
fn missing_pid_is_reported_absent() {
    let records = vec![rec(1, 0, "init"), rec(2, 1, "sshd")];
    assert!(get_process_tree(&records, 99).is_none());
}

#[test]
fn empty_input_gives_bare_root() {
    let records: Vec<ProcessStat> = Vec::new();
    let root = get_process_tree(&records, 0).unwrap();
    assert_eq!(root.name(), ROOT_PROC_NAME);
    assert_eq!(root.pid(), 0);
    assert_eq!(root.children().len(), 0);
}

#[test]
fn builds_children_in_input_order() {
    let records = vec![
        rec(1, 0, "init"),
        rec(3, 1, "late"),
        rec(2, 1, "early"),
        rec(4, 1, "last"),
    ];
    let tree = get_process_tree(&records, 1).unwrap();
    let names: Vec<&str> = tree.children().iter().map(|c| c.name()).collect();
    assert_eq!(names, vec!["late", "early", "last"]);
    assert_eq!(tree.children()[0].ppid(), 1);
}

#[test]
fn root_gathers_orphans_and_unreachable_stay_out() {
    // 9's parent 8 is absent from the snapshot, so 9 hangs nowhere under the
    // root; 1 and 2 attach to the synthetic root.
    let records = vec![rec(1, 0, "a"), rec(2, 0, "b"), rec(9, 8, "lost")];
    let root = get_process_tree(&records, 0).unwrap();
    assert_eq!(root.children().len(), 2);
    // The orphan is still observed: its bare node comes back, childless.
    let lost = get_process_tree(&records, 9).unwrap();
    assert_eq!(lost.name(), "lost");
    assert_eq!(lost.children().len(), 0);
}

#[test]
fn duplicate_pid_last_record_wins() {
    let records = vec![rec(5, 0, "first"), rec(5, 0, "second")];
    let node = get_process_tree(&records, 5).unwrap();
    assert_eq!(node.name(), "second");
    let cleaned = dedup_records(&records);
    assert_eq!(cleaned.len(), 1);
    assert_eq!(cleaned[0].name, "second");
}

#[test]
fn self_parented_record_terminates() {
    let records = vec![rec(1, 0, "init"), rec(6, 6, "loop")];
    let root = get_process_tree(&records, 0).unwrap();
    assert_eq!(root.children().len(), 1);
    let node = get_process_tree(&records, 6).unwrap();
    assert_eq!(node.name(), "loop");
}

#[test]
fn get_name_honours_root_marker_and_flag() {
    let mut p = Process::default();
    p.name = "?".to_string();
    assert_eq!(get_name(&p, true), "?");
    let mut q = Process::default();
    q.name = "bash".to_string();
    q.stat.pid = 42;
    assert_eq!(get_name(&q, false), "bash");
    assert_eq!(get_name(&q, true), "bash(42)");
}

#[test]
fn generate_prefix_draws_blanks_and_bars() {
    let frags = vec![
        PrefixFragment::BlankSpace(3),
        PrefixFragment::VerticalLine,
        PrefixFragment::BlankSpace(2),
    ];
    assert_eq!(generate_prefix(&frags), "   │  ");
    assert_eq!(generate_prefix(&Vec::new()), "");
}

#[test]
fn dfs_write_appends_subtree() {
    let records = vec![rec(1, 0, "a"), rec(2, 1, "b")];
    let tree = get_process_tree(&records, 1).unwrap();
    let mut buf = String::from("x");
    dfs_write(&mut buf, &tree, false, 0, 0, 0, &Vec::new());
    assert_eq!(buf, "xa───b");
}

#[test]
fn parses_plain_numbers() {
    assert_eq!(parse_u32("123"), Some(123));
    assert_eq!(parse_u32("0"), Some(0));
    assert_eq!(parse_u32("4294967295"), Some(u32::MAX));
    assert_eq!(parse_u32("4294967296"), None);
    assert_eq!(parse_u32(""), None);
    assert_eq!(parse_u32("12a"), None);
    assert_eq!(parse_u64("18446744073709551615"), Some(u64::MAX));
    assert_eq!(parse_u64("18446744073709551616"), None);
    assert_eq!(parse_i32("-1"), Some(-1));
    assert_eq!(parse_i32("2147483647"), Some(i32::MAX));
    assert_eq!(parse_i32("-2147483648"), Some(i32::MIN));
    assert_eq!(parse_i32("-2147483649"), None);
    assert_eq!(parse_i32("-"), None);
}

#[test]
fn recognises_process_dirs() {
    assert!(is_process_dir("1"));
    assert!(is_process_dir("4294967295"));
    assert!(!is_process_dir("4294967296"));
    assert!(!is_process_dir("abc"));
    assert!(!is_process_dir(""));
    assert!(!is_process_dir("12x"));
}

#[test]
fn provider_carries_its_path() {
    let mut p = LinuxProvider::new();
    assert_eq!(p.proc_path, LINUX_PROC_DIR);
    p.change_proc_path("/tmp/testproc");
    assert_eq!(p.proc_path, "/tmp/testproc");
}

#[test]
fn logging_prefixes() {
    assert_eq!(get_logging_prefix_for_level(LogLevel::Info), "🦔 ");
    assert_eq!(get_logging_prefix_for_level(LogLevel::Warn), "😺\u{1b}[1;33m ");
    assert_eq!(get_logging_prefix(LogLevel::Error), "🙀\u{1b}[0;31m ");
    assert_eq!(get_logging_prefix(LogLevel::Debug), get_logging_prefix_for_level(LogLevel::Debug));
}

#[test]
fn node_count_matches_distinct_pids() {
    fn count(p: &Process) -> usize {
        1 + p.children().iter().map(count).sum::<usize>()
    }
    let records = vec![
        rec(1, 0, "a"),
        rec(2, 1, "b"),
        rec(3, 1, "c"),
        rec(4, 2, "d"),
        rec(5, 0, "e"),
    ];
    let root = get_process_tree(&records, 0).unwrap();
    assert_eq!(count(&root) - 1, records.len());
}
