use psm::merge::{merge_adjacent, AggregateError};
use psm::stat::CmdStat;

fn stat(name: &str, pid: i32, pss: u64, shared: i64, swap: u64, count: u64) -> CmdStat {
    CmdStat { name: name.to_string(), pid, pss, shared, swap, count }
}

#[test]
fn a_run_of_one_name_becomes_one_record() {
    let sorted = vec![
        stat("bash", 4, 1000, 200, 0, 1),
        stat("bash", 2, 500, 100, 50, 1),
        stat("bash", 9, 1, -400, 2, 1),
        stat("sshd", 7, 2000, 10, 1, 1),
    ];
    let merged = merge_adjacent(&sorted).unwrap();
    assert_eq!(merged.len(), 2);
    assert_eq!(merged[0].name, "bash");
    assert_eq!(merged[0].pid, 4);
    assert_eq!(merged[0].pss, 1501);
    assert_eq!(merged[0].shared, -100);
    assert_eq!(merged[0].swap, 52);
    assert_eq!(merged[0].count, 3);
    assert_eq!(merged[1].name, "sshd");
    assert_eq!(merged[1].pid, 7);
    assert_eq!(merged[1].pss, 2000);
    assert_eq!(merged[1].shared, 10);
    assert_eq!(merged[1].swap, 1);
    assert_eq!(merged[1].count, 1);
}

#[test]
fn other_fields_have_no_say_in_merging() {
    let sorted = vec![stat("a", 1, 5, 5, 5, 1), stat("a", 1, 5, 5, 5, 1), stat("b", 1, 5, 5, 5, 1)];
    let merged = merge_adjacent(&sorted).unwrap();
    assert_eq!(merged.len(), 2);
    assert_eq!(merged[0].count, 2);
    assert_eq!(merged[1].count, 1);
}

#[test]
fn the_count_rises_by_one_for_each_record_folded_in() {
    let sorted = vec![stat("a", 1, 0, 0, 0, 5), stat("a", 2, 0, 0, 0, 7), stat("a", 3, 0, 0, 0, 1)];
    let merged = merge_adjacent(&sorted).unwrap();
    assert_eq!(merged.len(), 1);
    assert_eq!(merged[0].count, 7);
}

#[test]
fn nothing_merges_to_nothing() {
    assert_eq!(merge_adjacent(&Vec::new()).unwrap().len(), 0);
}

#[test]
fn sums_that_pass_through_the_limits_are_exact() {
    let sorted = vec![
        stat("a", 1, 0, i64::MAX, 0, 1),
        stat("a", 2, 0, 1, 0, 1),
        stat("a", 3, 0, -2, 0, 1),
    ];
    let merged = merge_adjacent(&sorted).unwrap();
    assert_eq!(merged[0].shared, i64::MAX - 1);
    let low = vec![stat("a", 1, 0, i64::MIN, 0, 1), stat("a", 2, 0, -1, 0, 1), stat("a", 3, 0, 1, 0, 1)];
    assert_eq!(merge_adjacent(&low).unwrap()[0].shared, i64::MIN);
}

#[test]
fn a_sum_too_large_is_an_error() {
    let share = vec![stat("a", 1, u64::MAX, 0, 0, 1), stat("a", 2, 1, 0, 0, 1)];
    assert_eq!(merge_adjacent(&share).unwrap_err(), AggregateError::TooLarge);
    let swap = vec![stat("a", 1, 0, 0, u64::MAX, 1), stat("a", 2, 0, 0, 1, 1)];
    assert_eq!(merge_adjacent(&swap).unwrap_err(), AggregateError::TooLarge);
    let high = vec![stat("a", 1, 0, i64::MAX, 0, 1), stat("a", 2, 0, 1, 0, 1)];
    assert_eq!(merge_adjacent(&high).unwrap_err(), AggregateError::TooLarge);
    let low = vec![stat("a", 1, 0, i64::MIN, 0, 1), stat("a", 2, 0, -1, 0, 1)];
    assert_eq!(merge_adjacent(&low).unwrap_err(), AggregateError::TooLarge);
    let count = vec![stat("a", 1, 0, 0, 0, u64::MAX), stat("a", 2, 0, 0, 0, 1)];
    assert_eq!(merge_adjacent(&count).unwrap_err(), AggregateError::TooLarge);
}

#[test]
fn sums_of_different_names_do_not_add_up() {
    let sorted = vec![stat("a", 1, u64::MAX, 0, 0, 1), stat("b", 2, u64::MAX, 0, 0, 1)];
    let merged = merge_adjacent(&sorted).unwrap();
    assert_eq!(merged.len(), 2);
}
