use emplace::grammar::{catch_line, match_line};
use emplace::record::{Manager, Operation, PackageRecord};

fn entries(rs: &[PackageRecord]) -> Vec<(Manager, Operation, String)> {
    rs.iter().map(|r| (r.manager, r.operation, r.name.clone())).collect()
}

#[test]
fn apt_install_two_packages() {
    let rs = match_line("apt install curl wget");
    assert_eq!(
        entries(&rs),
        vec![
            (Manager::Apt, Operation::Install, "curl".to_string()),
            (Manager::Apt, Operation::Install, "wget".to_string()),
        ]
    );
    assert_eq!(rs[0].raw_command, "apt install curl wget");
}

#[test]
fn npm_global_flag_is_skipped() {
    let rs = match_line("npm install -g typescript");
    assert_eq!(entries(&rs), vec![(Manager::Npm, Operation::Install, "typescript".to_string())]);
}

#[test]
fn unknown_tool_gives_nothing() {
    assert!(match_line("ls -la").is_empty());
    assert!(match_line("echo apt install curl").is_empty());
    assert!(match_line("").is_empty());
}

#[test]
fn chained_commands_in_order() {
    let rs = match_line("brew install wget && npm install lodash");
    assert_eq!(
        entries(&rs),
        vec![
            (Manager::Brew, Operation::Install, "wget".to_string()),
            (Manager::Npm, Operation::Install, "lodash".to_string()),
        ]
    );
    assert_eq!(rs[0].raw_command, "brew install wget");
    assert_eq!(rs[1].raw_command, "npm install lodash");
}

#[test]
fn other_separators_split_commands() {
    let rs = match_line("cargo install ripgrep; pip3 uninstall requests | gem install rake");
    assert_eq!(
        entries(&rs),
        vec![
            (Manager::Cargo, Operation::Install, "ripgrep".to_string()),
            (Manager::Pip, Operation::Uninstall, "requests".to_string()),
            (Manager::Gem, Operation::Install, "rake".to_string()),
        ]
    );
}

#[test]
fn uninstall_verbs() {
    let rs = match_line("apt-get purge vim");
    assert_eq!(entries(&rs), vec![(Manager::Apt, Operation::Uninstall, "vim".to_string())]);
    let rs = match_line("npm rm left-pad");
    assert_eq!(entries(&rs), vec![(Manager::Npm, Operation::Uninstall, "left-pad".to_string())]);
    assert!(match_line("go uninstall tool").is_empty());
}

#[test]
fn unknown_verb_gives_nothing() {
    assert!(match_line("apt update").is_empty());
    assert!(match_line("apt").is_empty());
}

#[test]
fn quotes_keep_words_together() {
    let rs = match_line("snap install 'code insiders' \"x;y\"");
    assert_eq!(
        entries(&rs),
        vec![
            (Manager::Snap, Operation::Install, "code insiders".to_string()),
            (Manager::Snap, Operation::Install, "x;y".to_string()),
        ]
    );
    assert_eq!(rs[0].raw_command, "snap install code insiders x;y");
}

#[test]
fn unclosed_quote_drops_only_its_command() {
    let rs = match_line("dnf install git && dnf install 'oops");
    assert_eq!(entries(&rs), vec![(Manager::Dnf, Operation::Install, "git".to_string())]);
}

#[test]
fn version_pin_stays_in_name() {
    let rs = match_line("go install golang.org/x/tools/gopls@latest");
    assert_eq!(
        entries(&rs),
        vec![(Manager::Go, Operation::Install, "golang.org/x/tools/gopls@latest".to_string())]
    );
}

#[test]
fn names_are_never_empty() {
    let rs = match_line("npm i '' -D jest \"\"");
    assert_eq!(entries(&rs), vec![(Manager::Npm, Operation::Install, "jest".to_string())]);
    for r in &rs {
        assert!(!r.name.is_empty());
    }
}

#[test]
fn catch_describes_each_record() {
    let (rs, shown) = catch_line("brew uninstall wget node");
    assert_eq!(rs.len(), 2);
    assert_eq!(shown, vec!["brew uninstall wget".to_string(), "brew uninstall node".to_string()]);
}
