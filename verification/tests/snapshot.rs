use psm::snapshot::{cmdstats_for, ProcSnapshot};
use psm::stat::CmdStat;

fn rollup(pss: u64, private: u64, swap: u64) -> Vec<u8> {
    format!(
        "{:<16}{:>8} kB\n{:<16}{:>8} kB\n{:<16}{:>8} kB\n",
        "Pss:", pss, "Private_Dirty:", private, "Swap:", swap
    )
    .into_bytes()
}

fn snapshot(pid: i32, exe: &str, cmdline: &str, pss: u64) -> ProcSnapshot {
    ProcSnapshot {
        pid,
        exe: Some(exe.to_string()),
        cmdline: Some(cmdline.to_string()),
        rollup: Some(rollup(pss, 1, 2)),
        detailed: None,
    }
}

#[test]
fn a_process_that_was_read_gets_a_record() {
    let stat = CmdStat::try_new(&snapshot(7, "/usr/bin/bash", "/usr/bin/bash\0-l\0", 10)).unwrap();
    assert_eq!(stat.name, "bash");
    assert_eq!(stat.pid, 7);
    assert_eq!(stat.pss, 10 * 1024 + 512);
    assert_eq!(stat.shared, 9 * 1024 + 512);
    assert_eq!(stat.swap, 2 * 1024);
    assert_eq!(stat.count, 1);
}

#[test]
fn a_rewritten_title_is_the_name() {
    let stat = CmdStat::try_new(&snapshot(8, "/usr/sbin/nginx", "nginx: worker", 10)).unwrap();
    assert_eq!(stat.name, "nginx: worker");
}

#[test]
fn without_identity_there_is_no_record() {
    let mut no_exe = snapshot(1, "/bin/a", "/bin/a", 1);
    no_exe.exe = None;
    assert!(CmdStat::try_new(&no_exe).is_none());
    let mut no_cmdline = snapshot(1, "/bin/a", "/bin/a", 1);
    no_cmdline.cmdline = None;
    assert!(CmdStat::try_new(&no_cmdline).is_none());
}

#[test]
fn without_a_name_there_is_no_record() {
    assert!(CmdStat::try_new(&snapshot(1, "/", "/sbin/init", 1)).is_none());
    assert!(CmdStat::try_new(&snapshot(1, "/usr/..", "/usr/../x", 1)).is_none());
    let kept = CmdStat::try_new(&snapshot(1, "/usr/bin/", "/usr/bin/x", 1)).unwrap();
    assert_eq!(kept.name, "bin");
}

#[test]
fn without_figures_there_is_no_record() {
    let mut gone = snapshot(1, "/bin/a", "/bin/a", 1);
    gone.rollup = None;
    assert!(CmdStat::try_new(&gone).is_none());
    let mut spoilt = snapshot(1, "/bin/a", "/bin/a", 1);
    spoilt.rollup = Some(b"Pss: ?\n".to_vec());
    spoilt.detailed = Some(b"Pss: ?\n".to_vec());
    assert!(CmdStat::try_new(&spoilt).is_none());
}

#[test]
fn the_detailed_form_stands_in_without_the_half_kilobyte() {
    let mut old_kernel = snapshot(5, "/bin/a", "/bin/a", 1);
    old_kernel.rollup = None;
    old_kernel.detailed = Some(rollup(40, 10, 0));
    let stat = CmdStat::try_new(&old_kernel).unwrap();
    assert_eq!(stat.pss, 40 * 1024);
    assert_eq!(stat.shared, 30 * 1024);
}

#[test]
fn a_vanished_process_is_left_out_and_the_rest_stays() {
    let mut vanished = snapshot(2, "/bin/b", "/bin/b", 20);
    vanished.exe = None;
    vanished.cmdline = None;
    vanished.rollup = None;
    let mut half_gone = snapshot(4, "/bin/d", "/bin/d", 40);
    half_gone.rollup = None;
    let all = vec![
        snapshot(1, "/bin/a", "/bin/a", 10),
        vanished,
        snapshot(3, "/bin/c", "/bin/c", 30),
        half_gone,
        snapshot(5, "/bin/e", "/bin/e", 50),
    ];
    let stats = cmdstats_for(&all);
    let pids: Vec<i32> = stats.iter().map(|s| s.pid).collect();
    assert_eq!(pids, vec![1, 3, 5]);
    let names: Vec<&str> = stats.iter().map(|s| s.name.as_str()).collect();
    assert_eq!(names, vec!["a", "c", "e"]);
}

#[test]
fn no_processes_give_no_records() {
    assert!(cmdstats_for(&Vec::new()).is_empty());
}
