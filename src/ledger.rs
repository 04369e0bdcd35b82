use vstd::prelude::*;
use crate::record::{PackageRecord, RecordKey, RecordView, views, lemma_views_push};
use crate::codec::{ParseError, ledger_text, parse_ledger, read_ledger, write_ledger};

verus! {

/// Whether some record of `s` has the key `k`.
pub open spec fn has_key(s: Seq<RecordView>, k: RecordKey) -> bool {
    exists|i: int| 0 <= i < s.len() && #[trigger] s[i].key() == k
}

/// No two records of `s` are the same entry.
pub open spec fn keys_unique(s: Seq<RecordView>) -> bool {
    forall|i: int, j: int| 0 <= i < j < s.len() ==> #[trigger] s[i].key() != #[trigger] s[j].key()
}

/// The records of `new` that a merge into `led` appends: those whose key is
/// neither in `led` nor in an earlier record of `new`, in the order of `new`.
pub open spec fn added(led: Seq<RecordView>, new: Seq<RecordView>) -> Seq<RecordView>
    decreases new.len(),
{
    if new.len() == 0 {
        Seq::empty()
    } else {
        let a = added(led, new.drop_last());
        if has_key(led + a, new.last().key()) {
            a
        } else {
            a.push(new.last())
        }
    }
}

/// The deduplicated, append-only set of package records that is mirrored
/// between machines.
pub struct Ledger {
    records: Vec<PackageRecord>,
}

impl View for Ledger {
    type V = Seq<RecordView>;

    closed spec fn view(&self) -> Seq<RecordView> {
        views(self.records@)
    }
}

/// Whether some record of `rs` is the same entry as `r`.
pub fn contains_entry(rs: &Vec<PackageRecord>, r: &PackageRecord) -> (b: bool)
    ensures
        b == has_key(views(rs@), r@.key()),
{
    let mut i: usize = 0;
    while i < rs.len()
        invariant
            i <= rs@.len(),
            forall|k: int| 0 <= k < i ==> #[trigger] rs@[k]@.key() != r@.key(),
        decreases rs.len() - i,
    {
        if rs[i].same_entry(r) {
            assert(views(rs@)[i as int].key() == r@.key());
            return true;
        }
        i = i + 1;
    }
    assert forall|k: int| 0 <= k < views(rs@).len() implies #[trigger] views(rs@)[k].key()
        != r@.key() by {
        assert(views(rs@)[k] == rs@[k]@);
    }
    false
}

impl Ledger {
    pub closed spec fn wf(&self) -> bool {
        keys_unique(self@)
    }

    /// An empty ledger.
    pub fn new() -> (r: Ledger)
        ensures
            r.wf(),
            r@ == Seq::<RecordView>::empty(),
    {
        let r = Ledger { records: Vec::new() };
        assert(r@ =~= Seq::<RecordView>::empty());
        r
    }

    /// The records, in the order in which they were first merged.
    pub fn records(&self) -> (r: &Vec<PackageRecord>)
        ensures
            views(r@) == self@,
    {
        &self.records
    }

    pub fn len(&self) -> (r: usize)
        ensures
            r == self@.len(),
    {
        self.records.len()
    }

    /// Empties the ledger.
    pub fn clear(&mut self)
        ensures
            final(self).wf(),
            final(self)@ == Seq::<RecordView>::empty(),
    {
        self.records = Vec::new();
        assert(self@ =~= Seq::<RecordView>::empty());
    }

    /// The ledger file's text.
    pub fn to_text(&self) -> (r: String)
        ensures
            r@ == ledger_text(self@),
    {
        write_ledger(&self.records)
    }

    /// The ledger that a file's text holds. Entries that occur twice (as two
    /// machines may both append one) are kept once, at the first place.
    pub fn from_text(t: &str) -> (r: Result<Ledger, ParseError>)
        ensures
            match r {
                Ok(l) => l.wf() && exists|v: Seq<RecordView>|
                    parse_ledger(t@) == Ok::<Seq<RecordView>, nat>(v) && l@ == added(
                        Seq::<RecordView>::empty(),
                        v,
                    ),
                Err(e) => parse_ledger(t@) == Err::<Seq<RecordView>, nat>(e.line as nat),
            },
    {
        match read_ledger(t) {
            Ok(v) => {
                let mut l = Ledger::new();
                l.merge(&v);
                assert(Seq::<RecordView>::empty() + added(Seq::<RecordView>::empty(), views(v@))
                    =~= added(Seq::<RecordView>::empty(), views(v@)));
                Ok(l)
            },
            Err(e) => Err(e),
        }
    }

    /// Appends the records of `new` whose entries the ledger lacks, keeping
    /// the order of `new` and the first of equal entries, and returns exactly
    /// the appended records. An empty result means nothing changed.
    pub fn merge(&mut self, new: &Vec<PackageRecord>) -> (r: Vec<PackageRecord>)
        requires
            old(self).wf(),
        ensures
            final(self).wf(),
            views(r@) == added(old(self)@, views(new@)),
            final(self)@ == old(self)@ + added(old(self)@, views(new@)),
    {
        let ghost led = self@;
        let ghost nv = views(new@);
        let mut out: Vec<PackageRecord> = Vec::new();
        let mut i: usize = 0;
        assert(nv.take(0) =~= Seq::<RecordView>::empty());
        assert(led + Seq::<RecordView>::empty() =~= led);
        assert(views(out@) =~= Seq::<RecordView>::empty());
        while i < new.len()
            invariant
                i <= new@.len(),
                nv == views(new@),
                keys_unique(self@),
                views(out@) == added(led, nv.take(i as int)),
                self@ == led + added(led, nv.take(i as int)),
            decreases new.len() - i,
        {
            assert(nv.take(i + 1).drop_last() =~= nv.take(i as int));
            assert(nv.take(i + 1).last() == new@[i as int]@);
            let r = &new[i];
            if !contains_entry(&self.records, r) {
                let ghost before = self@;
                let a = r.clone_record();
                let b = r.clone_record();
                proof {
                    lemma_views_push(self.records@, a);
                    lemma_views_push(out@, b);
                }
                self.records.push(a);
                out.push(b);
                assert(self@ == before.push(r@));
                assert forall|x: int, y: int| 0 <= x < y < self@.len() implies #[trigger] self@[x].key()
                    != #[trigger] self@[y].key() by {
                    if y == before.len() {
                        assert(self@[x] == before[x]);
                    }
                }
                assert(self@ =~= led + added(led, nv.take(i + 1)));
            }
            i = i + 1;
        }
        assert(nv.take(i as int) =~= nv);
        out
    }
}

proof fn lemma_has_key_extend(a: Seq<RecordView>, b: Seq<RecordView>, k: RecordKey)
    requires
        has_key(a, k),
    ensures
        has_key(a + b, k),
{
    let i = choose|i: int| 0 <= i < a.len() && #[trigger] a[i].key() == k;
    assert((a + b)[i] == a[i]);
}

/// After a merge, every entry of the merged records is in the ledger.
pub proof fn lemma_merge_covers(led: Seq<RecordView>, new: Seq<RecordView>)
    ensures
        forall|j: int| 0 <= j < new.len() ==> has_key(led + added(led, new), #[trigger] new[j].key()),
    decreases new.len(),
{
    if new.len() > 0 {
        let p = new.drop_last();
        lemma_merge_covers(led, p);
        let a = added(led, p);
        assert forall|j: int| 0 <= j < new.len() implies has_key(
            led + added(led, new),
            #[trigger] new[j].key(),
        ) by {
            if has_key(led + a, new.last().key()) {
                if j < p.len() {
                    assert(new[j] == p[j]);
                }
            } else {
                assert(led + added(led, new) =~= (led + a) + seq![new.last()]);
                if j < p.len() {
                    assert(new[j] == p[j]);
                    lemma_has_key_extend(led + a, seq![new.last()], new[j].key());
                } else {
                    assert((led + added(led, new))[(led + a).len() as int] == new.last());
                }
            }
        }
    }
}

proof fn lemma_added_nothing(led: Seq<RecordView>, new: Seq<RecordView>)
    requires
        forall|j: int| 0 <= j < new.len() ==> has_key(led, #[trigger] new[j].key()),
    ensures
        added(led, new) == Seq::<RecordView>::empty(),
    decreases new.len(),
{
    if new.len() > 0 {
        let p = new.drop_last();
        assert forall|j: int| 0 <= j < p.len() implies has_key(led, #[trigger] p[j].key()) by {
            assert(p[j] == new[j]);
        }
        lemma_added_nothing(led, p);
        assert(led + added(led, p) =~= led);
        assert(has_key(led, new[new.len() - 1].key()));
    }
}

/// Merging the same records a second time appends nothing.
pub proof fn lemma_merge_idempotent(led: Seq<RecordView>, new: Seq<RecordView>)
    ensures
        added(led + added(led, new), new) == Seq::<RecordView>::empty(),
{
    lemma_merge_covers(led, new);
    lemma_added_nothing(led + added(led, new), new);
}

/// Records appended by an earlier merge stay where they are and come before
/// every record appended by a later merge, whatever their managers.
pub proof fn lemma_merge_order(
    led: Seq<RecordView>,
    first: Seq<RecordView>,
    second: Seq<RecordView>,
    i: int,
    j: int,
)
    requires
        0 <= i < added(led, first).len(),
        0 <= j < added(led + added(led, first), second).len(),
    ensures
        ({
            let l1 = led + added(led, first);
            let l2 = l1 + added(l1, second);
            &&& l2[led.len() + i] == added(led, first)[i]
            &&& l2[l1.len() + j] == added(l1, second)[j]
            &&& led.len() + i < l1.len() + j
        }),
{
}

} // verus!
