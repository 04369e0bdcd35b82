use vstd::prelude::*;
use crate::record::{Manager, PackageRecord, RecordView, views, lemma_views_push};

verus! {

/// The managers of `s`, each once, in the order of their first record.
pub open spec fn managers_in_order(s: Seq<RecordView>) -> Seq<Manager>
    decreases s.len(),
{
    if s.len() == 0 {
        Seq::empty()
    } else {
        let p = managers_in_order(s.drop_last());
        if p.contains(s.last().manager) {
            p
        } else {
            p.push(s.last().manager)
        }
    }
}

/// The records of `s` that belong to manager `m`, in order.
pub open spec fn of_manager(s: Seq<RecordView>, m: Manager) -> Seq<RecordView> {
    s.filter(|r: RecordView| r.manager == m)
}

/// The records of one manager, to be installed together.
pub struct ManagerGroup {
    pub manager: Manager,
    pub records: Vec<PackageRecord>,
}

/// Whether `m` is among `ms`.
fn contains_manager(ms: &Vec<Manager>, m: Manager) -> (r: bool)
    ensures
        r == ms@.contains(m),
{
    let mut i: usize = 0;
    while i < ms.len()
        invariant
            i <= ms@.len(),
            forall|k: int| 0 <= k < i ==> ms@[k] != m,
        decreases ms.len() - i,
    {
        if ms[i] == m {
            return true;
        }
        i = i + 1;
    }
    false
}

/// The managers of `records`, each once, in the order of first appearance.
pub fn managers_of(records: &Vec<PackageRecord>) -> (r: Vec<Manager>)
    ensures
        r@ == managers_in_order(views(records@)),
{
    let ghost v = views(records@);
    let mut ms: Vec<Manager> = Vec::new();
    let mut i: usize = 0;
    assert(v.take(0) =~= Seq::<RecordView>::empty());
    while i < records.len()
        invariant
            i <= records@.len(),
            v == views(records@),
            ms@ == managers_in_order(v.take(i as int)),
        decreases records.len() - i,
    {
        assert(v.take(i + 1).drop_last() =~= v.take(i as int));
        assert(v.take(i + 1).last() == records@[i as int]@);
        let m = records[i].manager;
        if !contains_manager(&ms, m) {
            ms.push(m);
        }
        i = i + 1;
    }
    assert(v.take(i as int) =~= v);
    ms
}

/// The records of manager `m`, in order.
pub fn records_of(records: &Vec<PackageRecord>, m: Manager) -> (r: Vec<PackageRecord>)
    ensures
        views(r@) == of_manager(views(records@), m),
{
    let ghost v = views(records@);
    let mut out: Vec<PackageRecord> = Vec::new();
    let mut i: usize = 0;
    assert(v.take(0) =~= Seq::<RecordView>::empty());
    assert(views(out@) =~= of_manager(v.take(0), m)) by {
        reveal_with_fuel(Seq::filter, 1);
    }
    while i < records.len()
        invariant
            i <= records@.len(),
            v == views(records@),
            views(out@) == of_manager(v.take(i as int), m),
        decreases records.len() - i,
    {
        assert(v.take(i + 1) =~= v.take(i as int).push(records@[i as int]@));
        proof {
            v.take(i as int).lemma_filter_push(records@[i as int]@, |r: RecordView| r.manager == m);
        }
        if records[i].manager == m {
            let rec = records[i].clone_record();
            proof {
                lemma_views_push(out@, rec);
            }
            out.push(rec);
        }
        i = i + 1;
    }
    assert(v.take(i as int) =~= v);
    out
}

/// Groups records by manager: one group per manager, in the order in which
/// the managers first appear, each holding that manager's records in order.
pub fn group_by_manager(records: &Vec<PackageRecord>) -> (r: Vec<ManagerGroup>)
    ensures
        r@.len() == managers_in_order(views(records@)).len(),
        forall|k: int|
            0 <= k < r@.len() ==> #[trigger] r@[k].manager == managers_in_order(views(records@))[k]
                && views(r@[k].records@) == of_manager(views(records@), r@[k].manager),
{
    let ms = managers_of(records);
    let mut out: Vec<ManagerGroup> = Vec::new();
    let mut i: usize = 0;
    while i < ms.len()
        invariant
            i <= ms@.len(),
            ms@ == managers_in_order(views(records@)),
            out@.len() == i,
            forall|k: int|
                0 <= k < i ==> #[trigger] out@[k].manager == ms@[k] && views(out@[k].records@)
                    == of_manager(views(records@), out@[k].manager),
        decreases ms.len() - i,
    {
        let g = ManagerGroup { manager: ms[i], records: records_of(records, ms[i]) };
        out.push(g);
        i = i + 1;
    }
    out
}

} // verus!
