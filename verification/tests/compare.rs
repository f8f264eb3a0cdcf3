use psm::stat::CmdStat;
use std::cmp::Ordering;

fn stat(name: &str, pid: i32, pss: u64) -> CmdStat {
    CmdStat { name: name.to_string(), pid, pss, shared: 0, swap: 0, count: 1 }
}

#[test]
fn records_of_one_name_are_equal() {
    assert!(stat("bash", 1, 10) == stat("bash", 2, 99));
    assert!(stat("bash", 1, 10) != stat("sshd", 1, 10));
    assert!(stat("", 1, 10) == stat("", 1, 10));
    assert!(stat("bash", 1, 10) != stat("bash ", 1, 10));
}

#[test]
fn records_are_ordered_as_their_names() {
    assert_eq!(stat("bash", 1, 10).cmp(&stat("bash", 2, 99)), Ordering::Equal);
    assert_eq!(stat("bash", 9, 99).cmp(&stat("sshd", 1, 1)), Ordering::Less);
    assert_eq!(stat("sshd", 1, 1).cmp(&stat("bash", 9, 99)), Ordering::Greater);
    assert_eq!(stat("Zsh", 1, 1).cmp(&stat("ash", 1, 1)), Ordering::Less);
    assert_eq!(stat("ab", 1, 1).cmp(&stat("abc", 1, 1)), Ordering::Less);
    assert_eq!(stat("z", 1, 1).cmp(&stat("\u{e9}", 1, 1)), Ordering::Less);
}

#[test]
fn the_operators_go_by_name() {
    assert_eq!(stat("a", 5, 5).partial_cmp(&stat("b", 1, 1)), Some(Ordering::Less));
    assert_eq!(stat("a", 5, 5).partial_cmp(&stat("a", 1, 1)), Some(Ordering::Equal));
    assert!(stat("a", 5, 5) < stat("b", 1, 1));
    assert!(stat("b", 1, 1) > stat("a", 5, 5));
    assert!(stat("a", 5, 5) <= stat("a", 1, 1));
    assert!(stat("a", 5, 5) >= stat("a", 1, 1));
    assert!(!(stat("b", 1, 1) < stat("a", 5, 5)));
}

#[test]
fn names_order_as_strings_do() {
    let names = ["", "a", "A", "bash", "bash ", "sshd", "\u{e9}t\u{e9}", "\u{4e2d}", "\u{1f980}"];
    for a in names {
        for b in names {
            assert_eq!(stat(a, 1, 1).cmp(&stat(b, 2, 2)), a.cmp(b));
        }
    }
}
