use vstd::prelude::*;
use crate::text::{chars_of, push_chars, push_str_chars};

verus! {

/// The package managers whose commands are recognised.
#[derive(PartialEq, Eq, Structural, Clone, Copy, Debug, Hash)]
pub enum Manager {
    Apt,
    Brew,
    Npm,
    Cargo,
    Pip,
    Snap,
    Dnf,
    Gem,
    Go,
}

/// What a command does to a package.
#[derive(PartialEq, Eq, Structural, Clone, Copy, Debug, Hash)]
pub enum Operation {
    Install,
    Uninstall,
}

/// The name under which a manager is written in the ledger and on the
/// command line.
pub open spec fn manager_tag(m: Manager) -> Seq<char> {
    match m {
        Manager::Apt => "apt"@,
        Manager::Brew => "brew"@,
        Manager::Npm => "npm"@,
        Manager::Cargo => "cargo"@,
        Manager::Pip => "pip"@,
        Manager::Snap => "snap"@,
        Manager::Dnf => "dnf"@,
        Manager::Gem => "gem"@,
        Manager::Go => "go"@,
    }
}

/// The word under which an operation is written in the ledger.
pub open spec fn operation_tag(o: Operation) -> Seq<char> {
    match o {
        Operation::Install => "install"@,
        Operation::Uninstall => "uninstall"@,
    }
}

/// A package name that a record may carry: not empty, not an option flag,
/// and on one line.
pub open spec fn valid_name(n: Seq<char>) -> bool {
    n.len() > 0 && n[0] != '-' && !n.contains('\n')
}

/// The text of one record: manager, operation and name, separated by spaces.
pub open spec fn line_of(m: Manager, o: Operation, name: Seq<char>) -> Seq<char> {
    manager_tag(m) + seq![' '] + operation_tag(o) + seq![' '] + name
}

pub fn manager_tag_str(m: Manager) -> (r: &'static str)
    ensures
        r@ == manager_tag(m),
{
    match m {
        Manager::Apt => "apt",
        Manager::Brew => "brew",
        Manager::Npm => "npm",
        Manager::Cargo => "cargo",
        Manager::Pip => "pip",
        Manager::Snap => "snap",
        Manager::Dnf => "dnf",
        Manager::Gem => "gem",
        Manager::Go => "go",
    }
}

pub fn operation_tag_str(o: Operation) -> (r: &'static str)
    ensures
        r@ == operation_tag(o),
{
    match o {
        Operation::Install => "install",
        Operation::Uninstall => "uninstall",
    }
}

/// One install or uninstall of one package.
#[derive(Clone, Debug)]
pub struct PackageRecord {
    pub manager: Manager,
    pub operation: Operation,
    pub name: String,
    /// The command text the record was taken from; not part of its identity.
    pub raw_command: String,
}

/// The mathematical value of a record.
pub struct RecordView {
    pub manager: Manager,
    pub operation: Operation,
    pub name: Seq<char>,
    pub raw_command: Seq<char>,
}

impl View for PackageRecord {
    type V = RecordView;

    open spec fn view(&self) -> RecordView {
        RecordView {
            manager: self.manager,
            operation: self.operation,
            name: self.name@,
            raw_command: self.raw_command@,
        }
    }
}

/// What makes two records the same entry: the raw command is left out.
pub struct RecordKey {
    pub manager: Manager,
    pub operation: Operation,
    pub name: Seq<char>,
}

impl RecordView {
    pub open spec fn key(self) -> RecordKey {
        RecordKey { manager: self.manager, operation: self.operation, name: self.name }
    }

    pub open spec fn line(self) -> Seq<char> {
        line_of(self.manager, self.operation, self.name)
    }
}

/// The values of a sequence of records.
pub open spec fn views(rs: Seq<PackageRecord>) -> Seq<RecordView> {
    rs.map_values(|r: PackageRecord| r@)
}

pub proof fn lemma_views_push(rs: Seq<PackageRecord>, x: PackageRecord)
    ensures
        views(rs.push(x)) == views(rs).push(x@),
{
    assert(views(rs.push(x)) =~= views(rs).push(x@));
}

impl PackageRecord {
    /// A copy of the record.
    pub fn clone_record(&self) -> (r: PackageRecord)
        ensures
            r@ == self@,
    {
        PackageRecord {
            manager: self.manager,
            operation: self.operation,
            name: self.name.clone(),
            raw_command: self.raw_command.clone(),
        }
    }

    /// Whether the two records are the same entry of a ledger.
    pub fn same_entry(&self, other: &PackageRecord) -> (r: bool)
        ensures
            r == (self@.key() == other@.key()),
    {
        if self.manager != other.manager || self.operation != other.operation {
            return false;
        }
        let a = chars_of(self.name.as_str());
        let b = chars_of(other.name.as_str());
        let r = chars_vec_eq(&a, &b);
        proof {
            if r {
                assert(self@.key() =~= other@.key());
            }
        }
        r
    }

    /// The record as one line of text, e.g. `apt install curl`.
    pub fn describe(&self) -> (r: String)
        ensures
            r@ == self@.line(),
    {
        let mut s = String::new();
        push_str_chars(&mut s, manager_tag_str(self.manager));
        push_chars(&mut s, &vec![' ']);
        push_str_chars(&mut s, operation_tag_str(self.operation));
        push_chars(&mut s, &vec![' ']);
        push_str_chars(&mut s, self.name.as_str());
        assert(s@ =~= self@.line());
        s
    }
}

/// Whether two character sequences are equal.
pub fn chars_vec_eq(a: &Vec<char>, b: &Vec<char>) -> (r: bool)
    ensures
        r == (a@ == b@),
{
    if a.len() != b.len() {
        return false;
    }
    let mut i: usize = 0;
    while i < a.len()
        invariant
            a@.len() == b@.len(),
            i <= a@.len(),
            a@.subrange(0, i as int) == b@.subrange(0, i as int),
        decreases a.len() - i,
    {
        if a[i] != b[i] {
            return false;
        }
        assert(a@.subrange(0, i + 1) =~= a@.subrange(0, i as int).push(a@[i as int]));
        assert(b@.subrange(0, i + 1) =~= b@.subrange(0, i as int).push(b@[i as int]));
        i = i + 1;
    }
    assert(a@ =~= a@.subrange(0, i as int));
    assert(b@ =~= b@.subrange(0, i as int));
    true
}

} // verus!
