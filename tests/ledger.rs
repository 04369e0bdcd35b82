use emplace::codec::{read_ledger, write_ledger, ParseError};
use emplace::grammar::match_line;
use emplace::ledger::Ledger;
use emplace::record::{Manager, Operation, PackageRecord};
use emplace::replay::group_by_manager;

fn rec(manager: Manager, name: &str) -> PackageRecord {
    PackageRecord {
        manager,
        operation: Operation::Install,
        name: name.to_string(),
        raw_command: format!("install {}", name),
    }
}

fn names(rs: &[PackageRecord]) -> Vec<String> {
    rs.iter().map(|r| r.name.clone()).collect()
}

#[test]
fn merge_existing_entry_adds_nothing() {
    let mut l = Ledger::new();
    let first = l.merge(&vec![rec(Manager::Apt, "curl")]);
    assert_eq!(first.len(), 1);
    let again = l.merge(&vec![rec(Manager::Apt, "curl")]);
    assert!(again.is_empty());
    assert_eq!(l.len(), 1);
}

#[test]
fn merge_twice_is_idempotent() {
    let new = vec![rec(Manager::Apt, "curl"), rec(Manager::Npm, "lodash"), rec(Manager::Apt, "curl")];
    let mut l = Ledger::new();
    let added = l.merge(&new);
    assert_eq!(names(&added), vec!["curl", "lodash"]);
    let size = l.len();
    assert!(l.merge(&new).is_empty());
    assert_eq!(l.len(), size);
}

#[test]
fn merge_keeps_order_across_merges() {
    let mut l = Ledger::new();
    l.merge(&vec![rec(Manager::Npm, "a")]);
    l.merge(&vec![rec(Manager::Brew, "b"), rec(Manager::Npm, "a")]);
    assert_eq!(names(l.records()), vec!["a", "b"]);
}

#[test]
fn raw_command_is_not_identity() {
    let mut l = Ledger::new();
    l.merge(&vec![rec(Manager::Apt, "curl")]);
    let mut other = rec(Manager::Apt, "curl");
    other.raw_command = "apt-get install curl".to_string();
    assert!(l.merge(&vec![other]).is_empty());
    assert_eq!(l.records()[0].raw_command, "install curl");
    let mut removal = rec(Manager::Apt, "curl");
    removal.operation = Operation::Uninstall;
    assert_eq!(l.merge(&vec![removal]).len(), 1);
}

#[test]
fn clear_empties_the_ledger() {
    let mut l = Ledger::new();
    l.merge(&vec![rec(Manager::Apt, "curl")]);
    l.clear();
    assert_eq!(l.len(), 0);
    assert_eq!(l.to_text(), "");
}

#[test]
fn write_format() {
    let rs = match_line("apt install curl && pip uninstall six");
    assert_eq!(write_ledger(&rs), "apt install curl\npip uninstall six\n");
}

#[test]
fn write_then_read_round_trip() {
    let text = "apt install curl\nnpm install typescript\ngem uninstall rake\n";
    let rs = read_ledger(text).unwrap();
    assert_eq!(names(&rs), vec!["curl", "typescript", "rake"]);
    assert_eq!(rs[2].manager, Manager::Gem);
    assert_eq!(rs[2].operation, Operation::Uninstall);
    assert_eq!(rs[0].raw_command, "apt install curl");
    assert_eq!(write_ledger(&rs), text);
}

#[test]
fn read_skips_empty_lines_and_takes_last_line() {
    let rs = read_ledger("apt install curl\n\nbrew install wget").unwrap();
    assert_eq!(names(&rs), vec!["curl", "wget"]);
}

#[test]
fn read_rejects_malformed_line() {
    assert_eq!(read_ledger("apt install curl\nfoo bar baz\n").unwrap_err(), ParseError { line: 2 });
    assert_eq!(read_ledger("apt install \n").unwrap_err(), ParseError { line: 1 });
    assert_eq!(read_ledger("apt fetch curl\n").unwrap_err(), ParseError { line: 1 });
    assert_eq!(read_ledger("apt install -y\n").unwrap_err(), ParseError { line: 1 });
}

#[test]
fn ledger_from_text_dedups() {
    let l = Ledger::from_text("apt install curl\nbrew install wget\napt install curl\n").unwrap();
    assert_eq!(names(l.records()), vec!["curl", "wget"]);
    assert_eq!(l.to_text(), "apt install curl\nbrew install wget\n");
    assert_eq!(Ledger::from_text("x\n").err(), Some(ParseError { line: 1 }));
}

#[test]
fn groups_follow_first_appearance() {
    let rs = vec![
        rec(Manager::Npm, "a"),
        rec(Manager::Apt, "b"),
        rec(Manager::Npm, "c"),
        rec(Manager::Cargo, "d"),
    ];
    let gs = group_by_manager(&rs);
    let ms: Vec<Manager> = gs.iter().map(|g| g.manager).collect();
    assert_eq!(ms, vec![Manager::Npm, Manager::Apt, Manager::Cargo]);
    assert_eq!(names(&gs[0].records), vec!["a", "c"]);
    assert_eq!(names(&gs[2].records), vec!["d"]);
    assert!(group_by_manager(&Vec::new()).is_empty());
}
