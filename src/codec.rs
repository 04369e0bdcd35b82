use vstd::prelude::*;
use crate::record::{
    Manager, Operation, PackageRecord, RecordView, manager_tag, manager_tag_str, operation_tag,
    operation_tag_str, valid_name, views, lemma_views_push,
};
use crate::text::{chars_of, push_char, string_of};
use crate::grammar::is_valid_name;

verus! {

/// The ledger file: one line per record, each ended by a line break.
pub open spec fn ledger_text(s: Seq<RecordView>) -> Seq<char>
    decreases s.len(),
{
    if s.len() == 0 {
        Seq::empty()
    } else {
        ledger_text(s.drop_last()) + s.last().line() + seq!['\n']
    }
}

/// The finished lines and the line being read.
pub struct LineState {
    pub lines: Seq<Seq<char>>,
    pub cur: Seq<char>,
}

pub open spec fn line_step(st: LineState, c: char) -> LineState {
    if c == '\n' {
        LineState { lines: st.lines.push(st.cur), cur: Seq::empty() }
    } else {
        LineState { lines: st.lines, cur: st.cur.push(c) }
    }
}

pub open spec fn run_lines(st: LineState, x: Seq<char>) -> LineState
    decreases x.len(),
{
    if x.len() == 0 {
        st
    } else {
        run_lines(line_step(st, x[0]), x.drop_first())
    }
}

pub open spec fn line_start() -> LineState {
    LineState { lines: Seq::empty(), cur: Seq::empty() }
}

/// The lines of a text; a last line without a line break counts too.
pub open spec fn lines_of(t: Seq<char>) -> Seq<Seq<char>> {
    let st = run_lines(line_start(), t);
    if st.cur.len() > 0 {
        st.lines.push(st.cur)
    } else {
        st.lines
    }
}

/// Whether `l` holds the word `w` followed by a space at position `at`.
pub open spec fn has_word_at(l: Seq<char>, at: int, w: Seq<char>) -> bool {
    0 <= at && at + w.len() + 1 <= l.len() && l.subrange(at, at + w.len()) == w && l[at + w.len()]
        == ' '
}

/// The manager whose tag opens the line.
pub open spec fn line_manager(l: Seq<char>) -> Option<Manager> {
    if has_word_at(l, 0, manager_tag(Manager::Apt)) {
        Some(Manager::Apt)
    } else if has_word_at(l, 0, manager_tag(Manager::Brew)) {
        Some(Manager::Brew)
    } else if has_word_at(l, 0, manager_tag(Manager::Npm)) {
        Some(Manager::Npm)
    } else if has_word_at(l, 0, manager_tag(Manager::Cargo)) {
        Some(Manager::Cargo)
    } else if has_word_at(l, 0, manager_tag(Manager::Pip)) {
        Some(Manager::Pip)
    } else if has_word_at(l, 0, manager_tag(Manager::Snap)) {
        Some(Manager::Snap)
    } else if has_word_at(l, 0, manager_tag(Manager::Dnf)) {
        Some(Manager::Dnf)
    } else if has_word_at(l, 0, manager_tag(Manager::Gem)) {
        Some(Manager::Gem)
    } else if has_word_at(l, 0, manager_tag(Manager::Go)) {
        Some(Manager::Go)
    } else {
        None
    }
}

/// The operation whose tag stands at `at`.
pub open spec fn line_operation(l: Seq<char>, at: int) -> Option<Operation> {
    if has_word_at(l, at, operation_tag(Operation::Install)) {
        Some(Operation::Install)
    } else if has_word_at(l, at, operation_tag(Operation::Uninstall)) {
        Some(Operation::Uninstall)
    } else {
        None
    }
}

/// The record that one line of the ledger holds, if it is well formed; its
/// raw command is the line itself.
pub open spec fn parse_line(l: Seq<char>) -> Option<RecordView> {
    match line_manager(l) {
        None => None,
        Some(m) => {
            let at = manager_tag(m).len() + 1int;
            match line_operation(l, at) {
                None => None,
                Some(o) => {
                    let name = l.skip(at + operation_tag(o).len() + 1);
                    if valid_name(name) {
                        Some(RecordView { manager: m, operation: o, name, raw_command: l })
                    } else {
                        None
                    }
                },
            }
        },
    }
}

/// The records of the lines, or the number (from one) of the first line that
/// is not well formed. Empty lines are skipped.
pub open spec fn parse_lines(ls: Seq<Seq<char>>) -> Result<Seq<RecordView>, nat>
    decreases ls.len(),
{
    if ls.len() == 0 {
        Ok(Seq::empty())
    } else {
        match parse_lines(ls.drop_last()) {
            Err(e) => Err(e),
            Ok(rs) => if ls.last().len() == 0 {
                Ok(rs)
            } else {
                match parse_line(ls.last()) {
                    Some(r) => Ok(rs.push(r)),
                    None => Err(ls.len()),
                }
            },
        }
    }
}

pub open spec fn parse_ledger(t: Seq<char>) -> Result<Seq<RecordView>, nat> {
    parse_lines(lines_of(t))
}

/// A line of the ledger that is not well formed.
#[derive(PartialEq, Eq, Structural, Clone, Copy, Debug)]
pub struct ParseError {
    /// The line's number, counted from one.
    pub line: usize,
}

/// The ledger file holding `records`.
pub fn write_ledger(records: &Vec<PackageRecord>) -> (r: String)
    ensures
        r@ == ledger_text(views(records@)),
{
    let ghost v = views(records@);
    let mut s = String::new();
    let mut i: usize = 0;
    assert(v.take(0) =~= Seq::<RecordView>::empty());
    while i < records.len()
        invariant
            i <= records@.len(),
            v == views(records@),
            s@ == ledger_text(v.take(i as int)),
        decreases records.len() - i,
    {
        assert(v.take(i + 1).drop_last() =~= v.take(i as int));
        assert(v.take(i + 1).last() == records@[i as int]@);
        let line = records[i].describe();
        let cs = chars_of(line.as_str());
        crate::text::push_chars(&mut s, &cs);
        push_char(&mut s, '\n');
        i = i + 1;
        assert(s@ =~= ledger_text(v.take(i as int)));
    }
    assert(v.take(i as int) =~= v);
    s
}

/// Splits a text into its lines.
pub fn split_lines(t: &str) -> (r: Vec<Vec<char>>)
    ensures
        r.deep_view() == lines_of(t@),
{
    let s = chars_of(t);
    let mut lines: Vec<Vec<char>> = Vec::new();
    let mut cur: Vec<char> = Vec::new();
    let mut i: usize = 0;
    assert(lines.deep_view() =~= Seq::<Seq<char>>::empty());
    assert(cur@ =~= Seq::<char>::empty());
    assert(s@.skip(0) =~= s@);
    while i < s.len()
        invariant
            s@ == t@,
            i <= s@.len(),
            run_lines(line_start(), t@) == run_lines(
                LineState { lines: lines.deep_view(), cur: cur@ },
                s@.skip(i as int),
            ),
        decreases s.len() - i,
    {
        assert(s@.skip(i as int).drop_first() =~= s@.skip(i + 1));
        assert(s@.skip(i as int)[0] == s@[i as int]);
        if s[i] == '\n' {
            let ghost ld = lines.deep_view();
            let ghost cd = cur@;
            assert(cur.deep_view() =~= cd);
            lines.push(cur);
            cur = Vec::new();
            assert(lines.deep_view() =~= ld.push(cd));
            assert(cur@ =~= Seq::<char>::empty());
        } else {
            cur.push(s[i]);
        }
        i = i + 1;
    }
    assert(s@.skip(i as int) =~= Seq::<char>::empty());
    if cur.len() > 0 {
        let ghost ld = lines.deep_view();
        let ghost cd = cur@;
        assert(cur.deep_view() =~= cd);
        lines.push(cur);
        assert(lines.deep_view() =~= ld.push(cd));
    }
    lines
}

/// Whether `l` holds the word `w` followed by a space at position `at`.
pub fn word_at(l: &Vec<char>, at: usize, w: &str) -> (r: bool)
    ensures
        r == has_word_at(l@, at as int, w@),
{
    let n = w.unicode_len();
    if at >= l.len() || l.len() - at <= n {
        return false;
    }
    let mut i: usize = 0;
    while i < n
        invariant
            n == w@.len(),
            at + n + 1 <= l@.len(),
            l@.len() <= usize::MAX,
            i <= n,
            l@.subrange(at as int, at + i) == w@.subrange(0, i as int),
        decreases n - i,
    {
        if l[at + i] != w.get_char(i) {
            assert(l@.subrange(at as int, at + n)[i as int] != w@[i as int]);
            return false;
        }
        assert(l@.subrange(at as int, at + i + 1) =~= l@.subrange(at as int, at + i).push(
            l@[at + i],
        ));
        assert(w@.subrange(0, i + 1) =~= w@.subrange(0, i as int).push(w@[i as int]));
        i = i + 1;
    }
    assert(w@.subrange(0, n as int) =~= w@);
    l[at + n] == ' '
}

pub fn line_manager_of(l: &Vec<char>) -> (r: Option<Manager>)
    ensures
        r == line_manager(l@),
{
    if word_at(l, 0, manager_tag_str(Manager::Apt)) {
        Some(Manager::Apt)
    } else if word_at(l, 0, manager_tag_str(Manager::Brew)) {
        Some(Manager::Brew)
    } else if word_at(l, 0, manager_tag_str(Manager::Npm)) {
        Some(Manager::Npm)
    } else if word_at(l, 0, manager_tag_str(Manager::Cargo)) {
        Some(Manager::Cargo)
    } else if word_at(l, 0, manager_tag_str(Manager::Pip)) {
        Some(Manager::Pip)
    } else if word_at(l, 0, manager_tag_str(Manager::Snap)) {
        Some(Manager::Snap)
    } else if word_at(l, 0, manager_tag_str(Manager::Dnf)) {
        Some(Manager::Dnf)
    } else if word_at(l, 0, manager_tag_str(Manager::Gem)) {
        Some(Manager::Gem)
    } else if word_at(l, 0, manager_tag_str(Manager::Go)) {
        Some(Manager::Go)
    } else {
        None
    }
}

/// The record of one ledger line, if the line is well formed.
pub fn read_line(l: &Vec<char>) -> (r: Option<PackageRecord>)
    ensures
        match r {
            Some(x) => parse_line(l@) == Some(x@),
            None => parse_line(l@) is None,
        },
{
    let m = match line_manager_of(l) {
        Some(m) => m,
        None => return None,
    };
    let tag = manager_tag_str(m);
    let len = l.len();
    assert(has_word_at(l@, 0, manager_tag(m)));
    let at = tag.unicode_len() + 1;
    let o = if word_at(l, at, operation_tag_str(Operation::Install)) {
        Operation::Install
    } else if word_at(l, at, operation_tag_str(Operation::Uninstall)) {
        Operation::Uninstall
    } else {
        return None;
    };
    assert(has_word_at(l@, at as int, operation_tag(o)));
    let start = at + operation_tag_str(o).unicode_len() + 1;
    let mut name: Vec<char> = Vec::new();
    let mut i: usize = start;
    assert(l@.subrange(start as int, start as int) =~= Seq::<char>::empty());
    while i < l.len()
        invariant
            start <= i <= l@.len(),
            name@ == l@.subrange(start as int, i as int),
        decreases l.len() - i,
    {
        name.push(l[i]);
        i = i + 1;
        assert(name@ =~= l@.subrange(start as int, i as int));
    }
    assert(name@ =~= l@.skip(start as int));
    if !is_valid_name(&name) {
        return None;
    }
    Some(PackageRecord {
        manager: m,
        operation: o,
        name: string_of(&name),
        raw_command: string_of(l),
    })
}

/// Reads a ledger file. A line that is not well formed is an error, never
/// skipped; empty lines are.
pub fn read_ledger(t: &str) -> (r: Result<Vec<PackageRecord>, ParseError>)
    ensures
        match r {
            Ok(v) => parse_ledger(t@) == Ok::<Seq<RecordView>, nat>(views(v@)),
            Err(e) => parse_ledger(t@) == Err::<Seq<RecordView>, nat>(e.line as nat),
        },
{
    let lines = split_lines(t);
    let ghost ld = lines.deep_view();
    let mut out: Vec<PackageRecord> = Vec::new();
    let mut i: usize = 0;
    assert(ld.take(0) =~= Seq::<Seq<char>>::empty());
    assert(views(out@) =~= Seq::<RecordView>::empty());
    while i < lines.len()
        invariant
            i <= lines@.len(),
            ld == lines.deep_view(),
            ld == lines_of(t@),
            parse_lines(ld.take(i as int)) == Ok::<Seq<RecordView>, nat>(views(out@)),
        decreases lines.len() - i,
    {
        assert(ld.take(i + 1).drop_last() =~= ld.take(i as int));
        assert(lines[i as int]@ =~= ld[i as int]);
        assert(ld.take(i + 1).last() == ld[i as int]);
        if lines[i].len() > 0 {
            match read_line(&lines[i]) {
                Some(rec) => {
                    proof {
                        lemma_views_push(out@, rec);
                    }
                    out.push(rec);
                },
                None => {
                    proof {
                        lemma_parse_lines_err_stays(ld, i + 1);
                    }
                    return Err(ParseError { line: i + 1 });
                },
            }
        }
        i = i + 1;
    }
    assert(ld.take(i as int) =~= ld);
    Ok(out)
}

/// An error in the first `n` lines is the error of the whole text.
proof fn lemma_parse_lines_err_stays(ls: Seq<Seq<char>>, n: int)
    requires
        0 <= n <= ls.len(),
        parse_lines(ls.take(n)) is Err,
    ensures
        parse_lines(ls) == parse_lines(ls.take(n)),
    decreases ls.len() - n,
{
    if n < ls.len() {
        assert(ls.take(n + 1).drop_last() =~= ls.take(n));
        lemma_parse_lines_err_stays(ls, n + 1);
    } else {
        assert(ls.take(n) =~= ls);
    }
}

proof fn lemma_tag_chars(m: Manager)
    ensures
        manager_tag(m).len() >= 2,
        forall|k: int|
            0 <= k < manager_tag(m).len() ==> #[trigger] manager_tag(m)[k] != ' '
                && manager_tag(m)[k] != '\n',
{
    reveal_strlit("apt");
    reveal_strlit("brew");
    reveal_strlit("npm");
    reveal_strlit("cargo");
    reveal_strlit("pip");
    reveal_strlit("snap");
    reveal_strlit("dnf");
    reveal_strlit("gem");
    reveal_strlit("go");
}

spec fn tag_code(m: Manager) -> (char, char, nat) {
    match m {
        Manager::Apt => ('a', 'p', 3),
        Manager::Brew => ('b', 'r', 4),
        Manager::Npm => ('n', 'p', 3),
        Manager::Cargo => ('c', 'a', 5),
        Manager::Pip => ('p', 'i', 3),
        Manager::Snap => ('s', 'n', 4),
        Manager::Dnf => ('d', 'n', 3),
        Manager::Gem => ('g', 'e', 3),
        Manager::Go => ('g', 'o', 2),
    }
}

proof fn lemma_tag_code(m: Manager)
    ensures
        manager_tag(m).len() >= 2,
        tag_code(m) == (manager_tag(m)[0], manager_tag(m)[1], manager_tag(m).len()),
{
    match m {
        Manager::Apt => reveal_strlit("apt"),
        Manager::Brew => reveal_strlit("brew"),
        Manager::Npm => reveal_strlit("npm"),
        Manager::Cargo => reveal_strlit("cargo"),
        Manager::Pip => reveal_strlit("pip"),
        Manager::Snap => reveal_strlit("snap"),
        Manager::Dnf => reveal_strlit("dnf"),
        Manager::Gem => reveal_strlit("gem"),
        Manager::Go => reveal_strlit("go"),
    }
}

proof fn lemma_tag_injective(m: Manager, n: Manager)
    requires
        manager_tag(m) == manager_tag(n),
    ensures
        m == n,
{
    lemma_tag_code(m);
    lemma_tag_code(n);
}

proof fn lemma_op_chars(o: Operation)
    ensures
        operation_tag(o).len() >= 1,
        forall|k: int|
            0 <= k < operation_tag(o).len() ==> #[trigger] operation_tag(o)[k] != ' '
                && operation_tag(o)[k] != '\n',
{
    reveal_strlit("install");
    reveal_strlit("uninstall");
}

/// A tag followed by a space opens `l` only if it is the tag that `l` begins with.
proof fn lemma_word_at_tag(l: Seq<char>, at: int, w: Seq<char>, v: Seq<char>)
    requires
        0 <= at,
        at + w.len() < l.len(),
        l.subrange(at, at + w.len()) == w,
        l[at + w.len()] == ' ',
        forall|k: int| 0 <= k < w.len() ==> #[trigger] w[k] != ' ',
        forall|k: int| 0 <= k < v.len() ==> #[trigger] v[k] != ' ',
    ensures
        has_word_at(l, at, v) ==> v == w,
{
    if has_word_at(l, at, v) {
        if v.len() < w.len() {
            assert(l.subrange(at, at + w.len())[v.len() as int] == l[at + v.len()]);
        } else if v.len() > w.len() {
            assert(l.subrange(at, at + v.len())[w.len() as int] == l[at + w.len()]);
        } else {
            assert(v =~= w);
        }
    }
}

proof fn lemma_parse_line_of(r: RecordView)
    requires
        valid_name(r.name),
    ensures
        parse_line(r.line()) == Some(
            RecordView { manager: r.manager, operation: r.operation, name: r.name, raw_command: r.line() },
        ),
{
    let m = r.manager;
    let o = r.operation;
    let l = r.line();
    let t = manager_tag(m);
    let ot = operation_tag(o);
    lemma_tag_chars(m);
    lemma_op_chars(o);
    assert(l.subrange(0, t.len() as int) =~= t);
    assert(l[t.len() as int] == ' ');
    assert(has_word_at(l, 0, t));
    assert forall|n: Manager| has_word_at(l, 0, #[trigger] manager_tag(n)) implies n == m by {
        lemma_tag_chars(n);
        lemma_word_at_tag(l, 0, t, manager_tag(n));
        lemma_tag_injective(m, n);
    }
    assert(line_manager(l) == Some(m));
    let at = t.len() + 1int;
    assert(l.subrange(at, at + ot.len()) =~= ot);
    assert(l[at + ot.len()] == ' ');
    assert(has_word_at(l, at, ot));
    reveal_strlit("install");
    reveal_strlit("uninstall");
    lemma_op_chars(Operation::Install);
    lemma_word_at_tag(l, at, ot, operation_tag(Operation::Install));
    assert(line_operation(l, at) == Some(o));
    assert(l.skip(at + ot.len() + 1) =~= r.name);
}

proof fn lemma_run_concat(st: LineState, x: Seq<char>, y: Seq<char>)
    ensures
        run_lines(st, x + y) == run_lines(run_lines(st, x), y),
    decreases x.len(),
{
    if x.len() > 0 {
        assert((x + y).drop_first() =~= x.drop_first() + y);
        assert((x + y)[0] == x[0]);
        lemma_run_concat(line_step(st, x[0]), x.drop_first(), y);
    } else {
        assert(x + y =~= y);
    }
}

proof fn lemma_run_no_break(st: LineState, x: Seq<char>)
    requires
        !x.contains('\n'),
    ensures
        run_lines(st, x) == (LineState { lines: st.lines, cur: st.cur + x }),
    decreases x.len(),
{
    if x.len() > 0 {
        assert(x[0] != '\n');
        assert(!x.drop_first().contains('\n')) by {
            assert forall|k: int| 0 <= k < x.drop_first().len() implies x.drop_first()[k] != '\n' by {
                assert(x.drop_first()[k] == x[k + 1]);
            }
        }
        lemma_run_no_break(line_step(st, x[0]), x.drop_first());
        assert(st.cur.push(x[0]) + x.drop_first() =~= st.cur + x);
    } else {
        assert(st.cur + x =~= st.cur);
    }
}

/// The lines of the ledger text: one per record.
pub open spec fn record_lines(s: Seq<RecordView>) -> Seq<Seq<char>> {
    s.map_values(|r: RecordView| r.line())
}

proof fn lemma_line_no_break(r: RecordView)
    requires
        valid_name(r.name),
    ensures
        !r.line().contains('\n'),
        r.line().len() > 0,
{
    lemma_tag_chars(r.manager);
    lemma_op_chars(r.operation);
    let l = r.line();
    let t = manager_tag(r.manager);
    let ot = operation_tag(r.operation);
    assert forall|k: int| 0 <= k < l.len() implies l[k] != '\n' by {
        if k < t.len() {
            assert(l[k] == t[k]);
        } else if k == t.len() {
        } else if k < t.len() + 1 + ot.len() {
            assert(l[k] == ot[k - t.len() - 1]);
        } else if k == t.len() + 1 + ot.len() {
        } else {
            assert(l[k] == r.name[k - t.len() - 2 - ot.len()]);
        }
    }
}

proof fn lemma_text_lines(s: Seq<RecordView>)
    requires
        forall|i: int| 0 <= i < s.len() ==> valid_name(#[trigger] s[i].name),
    ensures
        run_lines(line_start(), ledger_text(s)) == (LineState {
            lines: record_lines(s),
            cur: Seq::empty(),
        }),
    decreases s.len(),
{
    if s.len() == 0 {
        assert(record_lines(s) =~= Seq::<Seq<char>>::empty());
    } else {
        let p = s.drop_last();
        assert forall|i: int| 0 <= i < p.len() implies valid_name(#[trigger] p[i].name) by {
            assert(p[i] == s[i]);
        }
        lemma_text_lines(p);
        let l = s.last().line();
        assert(valid_name(s[s.len() - 1].name));
        lemma_line_no_break(s.last());
        lemma_run_concat(line_start(), ledger_text(p) + l, seq!['\n']);
        lemma_run_concat(line_start(), ledger_text(p), l);
        lemma_run_no_break(run_lines(line_start(), ledger_text(p)), l);
        assert(Seq::<char>::empty() + l =~= l);
        let st = LineState { lines: record_lines(p), cur: l };
        assert(run_lines(line_start(), ledger_text(p) + l) == st);
        assert(seq!['\n'].drop_first() =~= Seq::<char>::empty());
        assert(seq!['\n'][0] == '\n');
        assert(run_lines(line_step(st, '\n'), Seq::<char>::empty()) == line_step(st, '\n'));
        assert(run_lines(st, seq!['\n']) == line_step(st, '\n'));
        assert(ledger_text(s) == ledger_text(p) + l + seq!['\n']);
        assert(record_lines(s) =~= record_lines(p).push(l));
    }
}

/// The records that reading back a ledger text gives: the same entries,
/// each with its own line as raw command.
pub open spec fn reread(s: Seq<RecordView>) -> Seq<RecordView> {
    s.map_values(
        |r: RecordView|
            RecordView {
                manager: r.manager,
                operation: r.operation,
                name: r.name,
                raw_command: r.line(),
            },
    )
}

proof fn lemma_parse_record_lines(s: Seq<RecordView>)
    requires
        forall|i: int| 0 <= i < s.len() ==> valid_name(#[trigger] s[i].name),
    ensures
        parse_lines(record_lines(s)) == Ok::<Seq<RecordView>, nat>(reread(s)),
    decreases s.len(),
{
    if s.len() == 0 {
        assert(record_lines(s) =~= Seq::<Seq<char>>::empty());
        assert(reread(s) =~= Seq::<RecordView>::empty());
    } else {
        let p = s.drop_last();
        assert forall|i: int| 0 <= i < p.len() implies valid_name(#[trigger] p[i].name) by {
            assert(p[i] == s[i]);
        }
        lemma_parse_record_lines(p);
        assert(record_lines(s).drop_last() =~= record_lines(p));
        assert(valid_name(s[s.len() - 1].name));
        lemma_line_no_break(s.last());
        lemma_parse_line_of(s.last());
        assert(reread(s) =~= reread(p).push(reread(s).last()));
    }
}

proof fn lemma_text_same_lines(a: Seq<RecordView>, b: Seq<RecordView>)
    requires
        a.len() == b.len(),
        forall|i: int| 0 <= i < a.len() ==> #[trigger] a[i].line() == b[i].line(),
    ensures
        ledger_text(a) == ledger_text(b),
    decreases a.len(),
{
    if a.len() > 0 {
        assert forall|i: int| 0 <= i < a.len() - 1 implies #[trigger] a.drop_last()[i].line()
            == b.drop_last()[i].line() by {
            assert(a.drop_last()[i] == a[i]);
            assert(b.drop_last()[i] == b[i]);
        }
        lemma_text_same_lines(a.drop_last(), b.drop_last());
        assert(a.last().line() == b.last().line());
    }
}

/// Reading a ledger text that was written from records with valid names
/// gives back the same entries, in the same order, and writing those
/// records again gives the same text.
pub proof fn lemma_write_read_round_trip(s: Seq<RecordView>)
    requires
        forall|i: int| 0 <= i < s.len() ==> valid_name(#[trigger] s[i].name),
    ensures
        parse_ledger(ledger_text(s)) == Ok::<Seq<RecordView>, nat>(reread(s)),
        reread(s).len() == s.len(),
        forall|i: int| 0 <= i < s.len() ==> #[trigger] reread(s)[i].key() == s[i].key(),
        ledger_text(reread(s)) == ledger_text(s),
{
    lemma_text_lines(s);
    lemma_parse_record_lines(s);
    assert forall|i: int| 0 <= i < s.len() implies #[trigger] reread(s)[i].line() == s[i].line() by {}
    lemma_text_same_lines(reread(s), s);
}

/// Every record read from a ledger text has a valid, and so non-empty,
/// package name.
pub proof fn lemma_parsed_names_valid(t: Seq<char>)
    ensures
        parse_ledger(t) matches Ok(v) ==> forall|i: int|
            0 <= i < v.len() ==> valid_name(#[trigger] v[i].name),
{
    lemma_parse_lines_names_valid(lines_of(t));
}

proof fn lemma_parse_lines_names_valid(ls: Seq<Seq<char>>)
    ensures
        parse_lines(ls) matches Ok(v) ==> forall|i: int|
            0 <= i < v.len() ==> valid_name(#[trigger] v[i].name),
    decreases ls.len(),
{
    if ls.len() > 0 {
        lemma_parse_lines_names_valid(ls.drop_last());
    }
}

} // verus!
