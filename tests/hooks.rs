use emplace::record::{Manager, Operation, PackageRecord};
use emplace::shell::Shell;
use emplace::text::{chars_of, string_of};

#[test]
fn shell_names() {
    assert_eq!(Shell::from_name("bash"), Some(Shell::Bash));
    assert_eq!(Shell::from_name("nu"), Some(Shell::Nu));
    assert_eq!(Shell::from_name("tcsh"), None);
}

#[test]
fn script_holds_paths() {
    let s = Shell::Fish.script("/bin/emplace", "/home/u/.config/emplace.toml");
    assert!(s.contains("    /bin/emplace catch \"$argv\""));
    assert!(s.contains("set -x EMPLACE_CONFIG \"/home/u/.config/emplace.toml\""));
    let n = Shell::Nu.script("/bin/e", "/c");
    assert_eq!(n, "\nEMPLACE_CONFIG=\"/c\" /bin/e catch $(history | last); echo >\n");
}

#[test]
fn text_helpers_copy_characters() {
    let cs = chars_of("héllo");
    assert_eq!(cs, vec!['h', 'é', 'l', 'l', 'o']);
    assert_eq!(string_of(&cs), "héllo");
}

#[test]
fn describe_record() {
    let r = PackageRecord {
        manager: Manager::Pip,
        operation: Operation::Uninstall,
        name: "six".to_string(),
        raw_command: String::new(),
    };
    assert_eq!(r.describe(), "pip uninstall six");
}
