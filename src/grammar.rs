use vstd::prelude::*;
use crate::lexer::{segments_of, split_segments};
use crate::record::{Manager, Operation, PackageRecord, RecordView, valid_name, views, lemma_views_push};
use crate::text::{chars_eq_str, push_char, push_chars, string_of};

verus! {

/// The manager that a command's first word invokes, if any.
pub open spec fn tool_manager(w: Seq<char>) -> Option<Manager> {
    if w == "apt"@ || w == "apt-get"@ {
        Some(Manager::Apt)
    } else if w == "brew"@ {
        Some(Manager::Brew)
    } else if w == "npm"@ {
        Some(Manager::Npm)
    } else if w == "cargo"@ {
        Some(Manager::Cargo)
    } else if w == "pip"@ || w == "pip3"@ {
        Some(Manager::Pip)
    } else if w == "snap"@ {
        Some(Manager::Snap)
    } else if w == "dnf"@ {
        Some(Manager::Dnf)
    } else if w == "gem"@ {
        Some(Manager::Gem)
    } else if w == "go"@ {
        Some(Manager::Go)
    } else {
        None
    }
}

/// The sub-commands with which a manager removes packages.
pub open spec fn is_uninstall_verb(m: Manager, w: Seq<char>) -> bool {
    match m {
        Manager::Apt => w == "remove"@ || w == "purge"@,
        Manager::Brew => w == "uninstall"@ || w == "remove"@,
        Manager::Npm => w == "uninstall"@ || w == "remove"@ || w == "rm"@,
        Manager::Cargo | Manager::Pip | Manager::Gem => w == "uninstall"@,
        Manager::Snap | Manager::Dnf => w == "remove"@,
        Manager::Go => false,
    }
}

/// What a manager's sub-command does, if it installs or removes packages.
pub open spec fn verb_operation(m: Manager, w: Seq<char>) -> Option<Operation> {
    if w == "install"@ || (m == Manager::Npm && (w == "i"@ || w == "add"@)) {
        Some(Operation::Install)
    } else if is_uninstall_verb(m, w) {
        Some(Operation::Uninstall)
    } else {
        None
    }
}

/// The words of a command joined by single spaces.
pub open spec fn join_words(ws: Seq<Seq<char>>) -> Seq<char>
    decreases ws.len(),
{
    if ws.len() == 0 {
        Seq::empty()
    } else if ws.len() == 1 {
        ws[0]
    } else {
        join_words(ws.drop_last()) + seq![' '] + ws.last()
    }
}

/// The arguments that name packages; option flags and empty words are skipped.
pub open spec fn package_names(args: Seq<Seq<char>>) -> Seq<Seq<char>> {
    args.filter(|w: Seq<char>| valid_name(w))
}

pub open spec fn record_for(m: Manager, o: Operation, raw: Seq<char>, n: Seq<char>) -> RecordView {
    RecordView { manager: m, operation: o, name: n, raw_command: raw }
}

/// One record per name, all with the same manager, operation and command.
pub open spec fn records_named(m: Manager, o: Operation, raw: Seq<char>, names: Seq<Seq<char>>) -> Seq<
    RecordView,
> {
    names.map_values(|n: Seq<char>| record_for(m, o, raw, n))
}

proof fn lemma_records_named_push(
    m: Manager,
    o: Operation,
    raw: Seq<char>,
    names: Seq<Seq<char>>,
    n: Seq<char>,
)
    ensures
        records_named(m, o, raw, names.push(n)) == records_named(m, o, raw, names).push(
            record_for(m, o, raw, n),
        ),
{
    assert(records_named(m, o, raw, names.push(n)) =~= records_named(m, o, raw, names).push(
        record_for(m, o, raw, n),
    ));
}

/// The records of one command `<tool> <verb> <args...>`: one per package
/// argument, or none where the tool or the verb is not recognised.
pub open spec fn segment_records(ws: Seq<Seq<char>>) -> Seq<RecordView> {
    if ws.len() < 2 {
        Seq::empty()
    } else {
        match tool_manager(ws[0]) {
            None => Seq::empty(),
            Some(m) => match verb_operation(m, ws[1]) {
                None => Seq::empty(),
                Some(o) => records_named(m, o, join_words(ws), package_names(ws.skip(2))),
            },
        }
    }
}

/// The records of a sequence of commands, in order.
pub open spec fn records_of_segments(segs: Seq<Seq<Seq<char>>>) -> Seq<RecordView>
    decreases segs.len(),
{
    if segs.len() == 0 {
        Seq::empty()
    } else {
        records_of_segments(segs.drop_last()) + segment_records(segs.last())
    }
}

/// The records of a whole command line.
pub open spec fn line_records(s: Seq<char>) -> Seq<RecordView> {
    records_of_segments(segments_of(s))
}

pub fn tool_manager_of(w: &Vec<char>) -> (r: Option<Manager>)
    ensures
        r == tool_manager(w@),
{
    if chars_eq_str(w, "apt") || chars_eq_str(w, "apt-get") {
        Some(Manager::Apt)
    } else if chars_eq_str(w, "brew") {
        Some(Manager::Brew)
    } else if chars_eq_str(w, "npm") {
        Some(Manager::Npm)
    } else if chars_eq_str(w, "cargo") {
        Some(Manager::Cargo)
    } else if chars_eq_str(w, "pip") || chars_eq_str(w, "pip3") {
        Some(Manager::Pip)
    } else if chars_eq_str(w, "snap") {
        Some(Manager::Snap)
    } else if chars_eq_str(w, "dnf") {
        Some(Manager::Dnf)
    } else if chars_eq_str(w, "gem") {
        Some(Manager::Gem)
    } else if chars_eq_str(w, "go") {
        Some(Manager::Go)
    } else {
        None
    }
}

pub fn operation_of_verb(m: Manager, w: &Vec<char>) -> (r: Option<Operation>)
    ensures
        r == verb_operation(m, w@),
{
    if chars_eq_str(w, "install") || (m == Manager::Npm && (chars_eq_str(w, "i") || chars_eq_str(
        w,
        "add",
    ))) {
        return Some(Operation::Install);
    }
    let un = match m {
        Manager::Apt => chars_eq_str(w, "remove") || chars_eq_str(w, "purge"),
        Manager::Brew => chars_eq_str(w, "uninstall") || chars_eq_str(w, "remove"),
        Manager::Npm => chars_eq_str(w, "uninstall") || chars_eq_str(w, "remove") || chars_eq_str(
            w,
            "rm",
        ),
        Manager::Cargo | Manager::Pip | Manager::Gem => chars_eq_str(w, "uninstall"),
        Manager::Snap | Manager::Dnf => chars_eq_str(w, "remove"),
        Manager::Go => false,
    };
    if un {
        Some(Operation::Uninstall)
    } else {
        None
    }
}

/// Whether a word may name a package.
pub fn is_valid_name(w: &Vec<char>) -> (r: bool)
    ensures
        r == valid_name(w@),
{
    if w.len() == 0 || w[0] == '-' {
        return false;
    }
    let mut i: usize = 0;
    while i < w.len()
        invariant
            i <= w@.len(),
            forall|k: int| 0 <= k < i ==> w@[k] != '\n',
        decreases w.len() - i,
    {
        if w[i] == '\n' {
            return false;
        }
        i = i + 1;
    }
    true
}

/// The words of a command joined by single spaces.
pub fn join(ws: &Vec<Vec<char>>) -> (r: String)
    ensures
        r@ == join_words(ws.deep_view()),
{
    let mut s = String::new();
    let mut i: usize = 0;
    while i < ws.len()
        invariant
            i <= ws@.len(),
            s@ == join_words(ws.deep_view().take(i as int)),
        decreases ws.len() - i,
    {
        let ghost t = ws.deep_view().take(i + 1);
        assert(t.drop_last() =~= ws.deep_view().take(i as int));
        assert(ws[i as int].deep_view() =~= ws[i as int]@);
        if i > 0 {
            push_char(&mut s, ' ');
        }
        push_chars(&mut s, &ws[i]);
        i = i + 1;
        assert(s@ =~= join_words(ws.deep_view().take(i as int)));
    }
    assert(ws.deep_view().take(i as int) =~= ws.deep_view());
    s
}

/// The records of one command, given as its words.
pub fn match_segment(ws: &Vec<Vec<char>>) -> (r: Vec<PackageRecord>)
    ensures
        views(r@) == segment_records(ws.deep_view()),
{
    let ghost d = ws.deep_view();
    let mut out: Vec<PackageRecord> = Vec::new();
    if ws.len() < 2 {
        assert(views(out@) =~= Seq::<RecordView>::empty());
        return out;
    }
    assert(ws[0]@ =~= d[0]);
    assert(ws[1]@ =~= d[1]);
    let m = match tool_manager_of(&ws[0]) {
        Some(m) => m,
        None => {
            assert(views(out@) =~= Seq::<RecordView>::empty());
            return out;
        },
    };
    let o = match operation_of_verb(m, &ws[1]) {
        Some(o) => o,
        None => {
            assert(views(out@) =~= Seq::<RecordView>::empty());
            return out;
        },
    };
    let raw = join(ws);
    let mut i: usize = 2;
    assert(d.skip(2).take(0) =~= Seq::<Seq<char>>::empty());
    assert(views(out@) =~= records_named(m, o, join_words(d), package_names(d.skip(2).take(0)))) by {
        reveal_with_fuel(Seq::filter, 1);
    }
    while i < ws.len()
        invariant
            2 <= i <= ws@.len(),
            d == ws.deep_view(),
            raw@ == join_words(d),
            views(out@) == records_named(m, o, join_words(d), package_names(d.skip(2).take(i - 2))),
        decreases ws.len() - i,
    {
        let ghost prev = d.skip(2).take(i - 2);
        assert(d.skip(2).take(i - 1) =~= prev.push(d[i as int]));
        assert(ws[i as int]@ =~= d[i as int]);
        proof {
            prev.lemma_filter_push(d[i as int], |w: Seq<char>| valid_name(w));
            lemma_records_named_push(m, o, join_words(d), package_names(prev), d[i as int]);
        }
        if is_valid_name(&ws[i]) {
            let rec = PackageRecord {
                manager: m,
                operation: o,
                name: string_of(&ws[i]),
                raw_command: raw.clone(),
            };
            assert(rec@.name == d[i as int]);
            assert(rec@.raw_command == join_words(d));
            assert(rec@ == record_for(m, o, join_words(d), d[i as int]));
            proof {
                lemma_views_push(out@, rec);
            }
            out.push(rec);
        }
        i = i + 1;
        assert(views(out@) =~= records_named(m, o, join_words(d), package_names(d.skip(2).take(i - 2))));
    }
    assert(d.skip(2).take(i - 2) =~= d.skip(2));
    out
}

/// The package records of a command line, left to right. Lines that invoke
/// no known package manager give none.
pub fn match_line(raw: &str) -> (r: Vec<PackageRecord>)
    ensures
        views(r@) == line_records(raw@),
        forall|i: int| 0 <= i < r@.len() ==> valid_name(#[trigger] r@[i].name@),
{
    proof {
        lemma_line_record_names_valid(raw@);
    }
    let segs = split_segments(raw);
    let ghost sd = segs.deep_view();
    let mut out: Vec<PackageRecord> = Vec::new();
    let mut i: usize = 0;
    assert(sd.take(0) =~= Seq::<Seq<Seq<char>>>::empty());
    assert(views(out@) =~= Seq::<RecordView>::empty());
    while i < segs.len()
        invariant
            i <= segs@.len(),
            sd == segs.deep_view(),
            sd == segments_of(raw@),
            views(out@) == records_of_segments(sd.take(i as int)),
        decreases segs.len() - i,
    {
        assert(sd.take(i + 1).drop_last() =~= sd.take(i as int));
        assert(segs[i as int].deep_view() == sd[i as int]);
        let rs = match_segment(&segs[i]);
        let ghost before = out@;
        let mut j: usize = 0;
        while j < rs.len()
            invariant
                j <= rs@.len(),
                views(out@) == views(before) + views(rs@).take(j as int),
            decreases rs.len() - j,
        {
            let rec = rs[j].clone_record();
            proof {
                lemma_views_push(out@, rec);
            }
            out.push(rec);
            j = j + 1;
            assert(views(out@) =~= views(before) + views(rs@).take(j as int));
        }
        assert(views(rs@).take(j as int) =~= views(rs@));
        i = i + 1;
        assert(views(out@) =~= records_of_segments(sd.take(i as int)));
    }
    assert(sd.take(i as int) =~= sd);
    assert forall|k: int| 0 <= k < out@.len() implies valid_name(#[trigger] out@[k].name@) by {
        assert(views(out@)[k] == out@[k]@);
        assert(valid_name(line_records(raw@)[k].name));
    }
    out
}

/// A command line none of whose commands begins with a known package
/// manager's tool name gives no records.
pub proof fn lemma_unknown_tool_no_records(s: Seq<char>)
    requires
        forall|k: int|
            0 <= k < segments_of(s).len() ==> #[trigger] segments_of(s)[k].len() == 0
                || tool_manager(segments_of(s)[k][0]) is None,
    ensures
        line_records(s) == Seq::<RecordView>::empty(),
{
    lemma_segments_without_tool(segments_of(s));
}

proof fn lemma_segments_without_tool(segs: Seq<Seq<Seq<char>>>)
    requires
        forall|k: int|
            0 <= k < segs.len() ==> #[trigger] segs[k].len() == 0 || tool_manager(segs[k][0]) is None,
    ensures
        records_of_segments(segs) == Seq::<RecordView>::empty(),
    decreases segs.len(),
{
    if segs.len() > 0 {
        let p = segs.drop_last();
        assert forall|k: int| 0 <= k < p.len() implies #[trigger] p[k].len() == 0 || tool_manager(
            p[k][0],
        ) is None by {
            assert(p[k] == segs[k]);
        }
        lemma_segments_without_tool(p);
        assert(segs[segs.len() - 1] == segs.last());
        assert(records_of_segments(segs) =~= Seq::<RecordView>::empty());
    }
}

/// Every record taken from a command line has a valid, and so non-empty,
/// package name.
pub proof fn lemma_line_record_names_valid(s: Seq<char>)
    ensures
        forall|i: int|
            0 <= i < line_records(s).len() ==> valid_name(#[trigger] line_records(s)[i].name),
{
    lemma_segment_names_valid(segments_of(s));
}

proof fn lemma_segment_names_valid(segs: Seq<Seq<Seq<char>>>)
    ensures
        forall|i: int|
            0 <= i < records_of_segments(segs).len() ==> valid_name(
                #[trigger] records_of_segments(segs)[i].name,
            ),
    decreases segs.len(),
{
    if segs.len() > 0 {
        lemma_segment_names_valid(segs.drop_last());
        let ws = segs.last();
        if ws.len() >= 2 {
            ws.skip(2).filter_lemma(|w: Seq<char>| valid_name(w));
        }
        let a = records_of_segments(segs.drop_last());
        let b = segment_records(ws);
        assert forall|i: int| 0 <= i < records_of_segments(segs).len() implies valid_name(
            #[trigger] records_of_segments(segs)[i].name,
        ) by {
            if i >= a.len() {
                assert(records_of_segments(segs)[i] == b[i - a.len()]);
            } else {
                assert(records_of_segments(segs)[i] == a[i]);
            }
        }
    }
}

/// One catch of a shell command: the records it holds and, for each, the
/// text that shows it to the user.
pub fn catch_line(line: &str) -> (r: (Vec<PackageRecord>, Vec<String>))
    ensures
        views(r.0@) == line_records(line@),
        r.1@.len() == r.0@.len(),
        forall|i: int| 0 <= i < r.1@.len() ==> #[trigger] r.1@[i]@ == r.0@[i]@.line(),
{
    let records = match_line(line);
    let mut shown: Vec<String> = Vec::new();
    let mut i: usize = 0;
    while i < records.len()
        invariant
            i <= records@.len(),
            shown@.len() == i,
            forall|k: int| 0 <= k < i ==> #[trigger] shown@[k]@ == records@[k]@.line(),
        decreases records.len() - i,
    {
        shown.push(records[i].describe());
        i = i + 1;
    }
    (records, shown)
}

} // verus!
