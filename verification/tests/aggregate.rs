use psm::aggregate::{aggregate, totals};
use psm::merge::AggregateError;
use psm::stat::CmdStat;

fn stat(name: &str, pid: i32, pss: u64, shared: i64, swap: u64) -> CmdStat {
    CmdStat { name: name.to_string(), pid, pss, shared, swap, count: 1 }
}

#[test]
fn two_shells_and_a_daemon() {
    let input = vec![
        stat("bash", 10, 1000, 200, 0),
        stat("sshd", 20, 2000, 700, 0),
        stat("bash", 30, 500, 100, 50),
    ];
    let report = aggregate(input).unwrap();
    assert_eq!(report.stats.len(), 2);
    let bash = &report.stats[0];
    assert_eq!(bash.name, "bash");
    assert_eq!(bash.pid, 10);
    assert_eq!(bash.pss, 1500);
    assert_eq!(bash.shared, 300);
    assert_eq!(bash.swap, 50);
    assert_eq!(bash.count, 2);
    let sshd = &report.stats[1];
    assert_eq!(sshd.name, "sshd");
    assert_eq!(sshd.pss, 2000);
    assert_eq!(sshd.count, 1);
    assert_eq!(report.total_pss, 3500);
    assert_eq!(report.total_swap, 50);
}

#[test]
fn a_total_too_large_is_an_error() {
    let input = vec![stat("a", 1, u64::MAX, 0, 0), stat("b", 2, 1, 0, 0)];
    assert_eq!(aggregate(input).unwrap_err(), AggregateError::TooLarge);
}

fn summary(input: Vec<CmdStat>) -> (Vec<(String, u64, i64, u64, u64)>, u64, u64) {
    let report = aggregate(input).unwrap();
    let rows = report
        .stats
        .iter()
        .map(|s| (s.name.clone(), s.pss, s.shared, s.swap, s.count))
        .collect();
    (rows, report.total_pss, report.total_swap)
}

#[test]
fn no_processes_give_an_empty_report() {
    let report = aggregate(Vec::new()).unwrap();
    assert!(report.stats.is_empty());
    assert_eq!(report.total_pss, 0);
    assert_eq!(report.total_swap, 0);
}

#[test]
fn the_order_of_the_processes_does_not_change_the_figures() {
    let make = || {
        vec![
            stat("bash", 1, 1000, 200, 0),
            stat("sshd", 2, 2000, 700, 4),
            stat("bash", 3, 500, 100, 50),
            stat("init", 4, 70, -3, 0),
            stat("sshd", 5, 1, 1, 1),
            stat("bash", 6, 2, 2, 2),
        ]
    };
    let expected = summary(make());
    assert_eq!(
        expected.0,
        vec![
            ("init".to_string(), 70, -3, 0, 1),
            ("bash".to_string(), 1502, 302, 52, 3),
            ("sshd".to_string(), 2001, 701, 5, 2),
        ]
    );
    assert_eq!(expected.1, 3573);
    assert_eq!(expected.2, 57);
    let mut reversed = make();
    reversed.reverse();
    assert_eq!(summary(reversed), expected);
    let mut rotated = make();
    rotated.rotate_left(2);
    assert_eq!(summary(rotated), expected);
    let mut swapped = make();
    swapped.swap(0, 5);
    swapped.swap(1, 3);
    assert_eq!(summary(swapped), expected);
}

#[test]
fn the_record_of_a_name_keeps_the_first_process() {
    let input = vec![stat("b", 9, 1, 0, 0), stat("a", 5, 1, 0, 0), stat("b", 3, 1, 0, 0)];
    let report = aggregate(input).unwrap();
    assert_eq!(report.stats[0].name, "a");
    assert_eq!(report.stats[0].pid, 5);
    assert_eq!(report.stats[1].name, "b");
    assert_eq!(report.stats[1].pid, 9);
}

#[test]
fn the_list_goes_by_the_merged_share() {
    let input = vec![
        stat("heavy", 1, 40, 0, 0),
        stat("many", 2, 30, 0, 0),
        stat("many", 3, 30, 0, 0),
        stat("light", 4, 50, 0, 0),
    ];
    let (rows, total_pss, _) = summary(input);
    let names: Vec<&str> = rows.iter().map(|r| r.0.as_str()).collect();
    assert_eq!(names, vec!["heavy", "light", "many"]);
    assert_eq!(total_pss, 150);
}

#[test]
fn equal_shares_go_by_name() {
    let input = vec![stat("c", 1, 10, 0, 0), stat("a", 2, 10, 0, 0), stat("b", 3, 10, 0, 0)];
    let (rows, _, _) = summary(input);
    let names: Vec<&str> = rows.iter().map(|r| r.0.as_str()).collect();
    assert_eq!(names, vec!["a", "b", "c"]);
}

#[test]
fn a_merged_sum_too_large_is_an_error() {
    let input = vec![stat("a", 1, 0, i64::MIN, 0), stat("b", 2, 0, 5, 0), stat("a", 3, 0, -1, 0)];
    assert_eq!(aggregate(input).unwrap_err(), AggregateError::TooLarge);
    let swap = vec![stat("a", 1, 0, 0, u64::MAX), stat("b", 2, 0, 0, 1)];
    assert_eq!(aggregate(swap).unwrap_err(), AggregateError::TooLarge);
}

#[test]
fn totals_are_taken_over_any_list() {
    let list = vec![stat("a", 1, 5, 0, 1), stat("a", 2, 6, 0, 2), stat("b", 3, 7, 0, 3)];
    assert_eq!(totals(&list), Ok((18, 6)));
    assert_eq!(totals(&Vec::new()), Ok((0, 0)));
    let large = vec![stat("a", 1, u64::MAX, 0, 0), stat("b", 2, 1, 0, 0)];
    assert_eq!(totals(&large), Err(AggregateError::TooLarge));
}
