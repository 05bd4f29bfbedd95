//! The mathematical model of triage: how one submission folds over
//! the ledger, and how the time-ordered index absorbs new entries.

use vstd::prelude::*;

use crate::ids::report_id_of;
use crate::types::FarmerId;

verus! {

/// One submission seen abstractly: for each offender, in input order,
/// its derived identifier and its identity bytes.
pub open spec fn report_items(kind: Seq<u8>, time_slot: u64, offenders: Seq<FarmerId>) -> Seq<
    (Seq<u8>, Seq<u8>),
> {
    offenders.map_values(|o: FarmerId| (report_id_of(kind, time_slot, o@), o@))
}

/// What one triage pass leaves of the ledger, and which identifiers
/// it added, in order.
pub struct TriageFold {
    /// The ledger after the pass.
    pub reports: Map<Seq<u8>, Seq<u8>>,
    /// The identifiers of the novel reports, in submission order.
    pub added: Seq<Seq<u8>>,
}

/// Folds one submission over the ledger: each offender whose
/// identifier is not yet on record is appended, later duplicates
/// within the same submission included.
pub open spec fn triage_core(reports: Map<Seq<u8>, Seq<u8>>, items: Seq<(Seq<u8>, Seq<u8>)>)
    -> TriageFold
    decreases items.len(),
{
    if items.len() == 0 {
        TriageFold { reports, added: Seq::empty() }
    } else {
        let prev = triage_core(reports, items.drop_last());
        if prev.reports.contains_key(items.last().0) {
            prev
        } else {
            TriageFold {
                reports: prev.reports.insert(items.last().0, items.last().1),
                added: prev.added.push(items.last().0),
            }
        }
    }
}

/// Non-decreasing by time slot.
pub open spec fn sorted_by_slot(l: Seq<(u64, Seq<u8>)>) -> bool {
    forall|i: int, j: int| 0 <= i < j < l.len() ==> (#[trigger] l[i]).0 <= (#[trigger] l[j]).0
}

/// Where a new entry for `t` goes: one past the last entry of the
/// longest prefix whose slots are all at most `t`.
pub open spec fn insert_pos(l: Seq<(u64, Seq<u8>)>, t: u64) -> int
    decreases l.len(),
{
    if l.len() == 0 {
        0
    } else if l[0].0 <= t {
        1 + insert_pos(l.drop_first(), t)
    } else {
        0
    }
}

/// Inserts `(t, id)` after every existing entry whose slot is at most
/// `t`: the stable, append-after-equal tie-break.
pub open spec fn sorted_insert(l: Seq<(u64, Seq<u8>)>, t: u64, id: Seq<u8>) -> Seq<(u64, Seq<u8>)> {
    l.insert(insert_pos(l, t), (t, id))
}

/// Inserts one entry per identifier, in order, all at slot `t`.
pub open spec fn sorted_insert_all(l: Seq<(u64, Seq<u8>)>, t: u64, ids: Seq<Seq<u8>>) -> Seq<
    (u64, Seq<u8>),
>
    decreases ids.len(),
{
    if ids.len() == 0 {
        l
    } else {
        sorted_insert(sorted_insert_all(l, t, ids.drop_last()), t, ids.last())
    }
}

/// The insertion position is a position of `l`, every entry before it
/// has a slot at most `t`, and the entry at it (if any) a greater one.
pub proof fn lemma_insert_pos(l: Seq<(u64, Seq<u8>)>, t: u64)
    ensures
        0 <= insert_pos(l, t) <= l.len(),
        forall|i: int| 0 <= i < insert_pos(l, t) ==> (#[trigger] l[i]).0 <= t,
        insert_pos(l, t) < l.len() ==> l[insert_pos(l, t)].0 > t,
    decreases l.len(),
{
    if l.len() == 0 {
    } else if l[0].0 <= t {
        lemma_insert_pos(l.drop_first(), t);
        assert forall|i: int| 0 <= i < insert_pos(l, t) implies (#[trigger] l[i]).0 <= t by {
            if i > 0 {
                assert(l.drop_first()[i - 1] == l[i]);
            }
        }
        if insert_pos(l, t) < l.len() {
            assert(l.drop_first()[insert_pos(l, t) - 1] == l[insert_pos(l, t)]);
        }
    }
}

/// The stable insertion keeps the index sorted.
pub proof fn lemma_sorted_insert_sorted(l: Seq<(u64, Seq<u8>)>, t: u64, id: Seq<u8>)
    requires
        sorted_by_slot(l),
    ensures
        sorted_by_slot(sorted_insert(l, t, id)),
        sorted_insert(l, t, id).len() == l.len() + 1,
{
    let p = insert_pos(l, t);
    lemma_insert_pos(l, t);
    let li = sorted_insert(l, t, id);
    assert forall|i: int, j: int| 0 <= i < j < li.len() implies (#[trigger] li[i]).0
        <= (#[trigger] li[j]).0 by {
        if i < p && j < p {
            assert(li[i] == l[i] && li[j] == l[j]);
        } else if i < p && j == p {
            assert(li[i] == l[i]);
        } else if i < p && j > p {
            assert(li[i] == l[i] && li[j] == l[j - 1]);
            assert(l[i].0 <= t);
            if j - 1 >= p {
                assert(l[p].0 <= l[j - 1].0);
                assert(l[p].0 > t);
            }
        } else if i == p && j > p {
            assert(li[j] == l[j - 1]);
            assert(l[j - 1].0 > t) by {
                assert(l[p].0 <= l[j - 1].0);
            }
        } else if i > p && j > p {
            assert(li[i] == l[i - 1] && li[j] == l[j - 1]);
        }
    }
}

/// Inserting a batch keeps the index sorted and grows it by one entry
/// per identifier.
pub proof fn lemma_sorted_insert_all_sorted(l: Seq<(u64, Seq<u8>)>, t: u64, ids: Seq<Seq<u8>>)
    requires
        sorted_by_slot(l),
    ensures
        sorted_by_slot(sorted_insert_all(l, t, ids)),
        sorted_insert_all(l, t, ids).len() == l.len() + ids.len(),
    decreases ids.len(),
{
    if ids.len() > 0 {
        lemma_sorted_insert_all_sorted(l, t, ids.drop_last());
        lemma_sorted_insert_sorted(sorted_insert_all(l, t, ids.drop_last()), t, ids.last());
    }
}

/// Every identifier the fold adds was unknown to the incoming ledger,
/// is on record afterwards, and the ledger otherwise only grows:
/// entries already on record never change.
pub proof fn lemma_triage_core_frame(reports: Map<Seq<u8>, Seq<u8>>, items: Seq<(Seq<u8>, Seq<u8>)>)
    ensures
        ({
            let tc = triage_core(reports, items);
            &&& forall|k: Seq<u8>| #[trigger]
                reports.contains_key(k) ==> tc.reports.contains_key(k) && tc.reports[k]
                    == reports[k]
            &&& forall|k: Seq<u8>| #[trigger]
                tc.reports.contains_key(k) ==> reports.contains_key(k) || tc.added.contains(k)
            &&& forall|i: int|
                0 <= i < tc.added.len() ==> !reports.contains_key(#[trigger] tc.added[i])
                    && tc.reports.contains_key(tc.added[i])
        }),
    decreases items.len(),
{
    if items.len() > 0 {
        lemma_triage_core_frame(reports, items.drop_last());
        let prev = triage_core(reports, items.drop_last());
        let tc = triage_core(reports, items);
        if !prev.reports.contains_key(items.last().0) {
            let last_id = items.last().0;
            assert(!reports.contains_key(last_id)) by {
                if reports.contains_key(last_id) {
                    assert(prev.reports.contains_key(last_id));
                }
            }
            assert forall|k: Seq<u8>| #[trigger]
                reports.contains_key(k) implies tc.reports.contains_key(k) && tc.reports[k]
                == reports[k] by {
                assert(prev.reports.contains_key(k) && prev.reports[k] == reports[k]);
                assert(k != last_id);
            }
            assert forall|i: int|
                0 <= i < tc.added.len() implies !reports.contains_key(#[trigger] tc.added[i])
                && tc.reports.contains_key(tc.added[i]) by {
                if i < tc.added.len() - 1 {
                    assert(tc.added[i] == prev.added[i]);
                    assert(!reports.contains_key(prev.added[i]));
                    assert(prev.reports.contains_key(prev.added[i]));
                } else {
                    assert(tc.added[i] == last_id);
                }
            }
            assert forall|k: Seq<u8>| #[trigger]
                tc.reports.contains_key(k) implies reports.contains_key(k) || tc.added.contains(
                k,
            ) by {
                if k == last_id {
                    assert(tc.added[tc.added.len() - 1] == k);
                } else {
                    assert(prev.reports.contains_key(k));
                    if !reports.contains_key(k) {
                        assert(prev.added.contains(k));
                        let i = choose|i: int| 0 <= i < prev.added.len() && prev.added[i] == k;
                        assert(tc.added[i] == k);
                    }
                }
            }
        }
    }
}

/// The fold finds something novel exactly when some submitted
/// identifier is absent from the incoming ledger.
pub proof fn lemma_triage_core_novel_iff(
    reports: Map<Seq<u8>, Seq<u8>>,
    items: Seq<(Seq<u8>, Seq<u8>)>,
)
    ensures
        triage_core(reports, items).added.len() > 0 <==> exists|i: int|
            0 <= i < items.len() && !reports.contains_key((#[trigger] items[i]).0),
    decreases items.len(),
{
    if items.len() > 0 {
        lemma_triage_core_novel_iff(reports, items.drop_last());
        lemma_triage_core_frame(reports, items.drop_last());
        let prev = triage_core(reports, items.drop_last());
        let tc = triage_core(reports, items);
        if tc.added.len() > 0 {
            if prev.added.len() > 0 {
                let i = choose|i: int|
                    0 <= i < items.drop_last().len() && !reports.contains_key(
                        (#[trigger] items.drop_last()[i]).0,
                    );
                assert(items[i] == items.drop_last()[i]);
                assert(!reports.contains_key(items[i].0));
            } else {
                assert(!prev.reports.contains_key(items.last().0));
                assert(!reports.contains_key(items.last().0)) by {
                    if reports.contains_key(items.last().0) {
                        assert(prev.reports.contains_key(items.last().0));
                    }
                }
                assert(!reports.contains_key(items[items.len() - 1].0));
            }
        } else {
            assert forall|i: int| 0 <= i < items.len() implies reports.contains_key(
                (#[trigger] items[i]).0,
            ) by {
                if i < items.len() - 1 {
                    assert(items.drop_last()[i] == items[i]);
                } else {
                    assert(prev.reports.contains_key(items.last().0));
                    if !reports.contains_key(items.last().0) {
                        assert(prev.added.contains(items.last().0));
                    }
                }
            }
        }
    }
}

/// A submitted identifier that was unknown is among the added ones,
/// and what the ledger then holds for it came from the submission.
pub proof fn lemma_triage_core_novel_added(
    reports: Map<Seq<u8>, Seq<u8>>,
    items: Seq<(Seq<u8>, Seq<u8>)>,
    k: int,
)
    requires
        0 <= k < items.len(),
        !reports.contains_key(items[k].0),
    ensures
        triage_core(reports, items).added.contains(items[k].0),
        exists|j: int|
            0 <= j < items.len() && (#[trigger] items[j]).0 == items[k].0 && triage_core(
                reports,
                items,
            ).reports[items[k].0] == items[j].1,
    decreases items.len(),
{
    let prev = triage_core(reports, items.drop_last());
    let tc = triage_core(reports, items);
    lemma_triage_core_frame(reports, items.drop_last());
    if k < items.len() - 1 {
        assert(items.drop_last()[k] == items[k]);
        lemma_triage_core_novel_added(reports, items.drop_last(), k);
        let i = choose|i: int| 0 <= i < prev.added.len() && prev.added[i] == items[k].0;
        let j = choose|j: int|
            0 <= j < items.drop_last().len() && (#[trigger] items.drop_last()[j]).0 == items[k].0
                && prev.reports[items[k].0] == items.drop_last()[j].1;
        assert(items[j] == items.drop_last()[j]);
        if prev.reports.contains_key(items.last().0) {
            assert(tc.added[i] == items[k].0);
        } else {
            assert(tc.added[i] == items[k].0);
            assert(items.last().0 != items[k].0 || tc.reports[items[k].0] == items.last().1);
            if items.last().0 == items[k].0 {
                assert(items[items.len() - 1].0 == items[k].0 && tc.reports[items[k].0] == items[
                    items.len() - 1
                ].1);
            } else {
                assert(tc.reports[items[k].0] == prev.reports[items[k].0]);
                assert(items[j].0 == items[k].0 && tc.reports[items[k].0] == items[j].1);
            }
        }
    } else {
        if prev.reports.contains_key(items.last().0) {
            lemma_triage_core_frame(reports, items.drop_last());
            assert(prev.added.contains(items.last().0));
            let i = choose|i: int| 0 <= i < prev.added.len() && prev.added[i] == items.last().0;
            assert(tc.added[i] == items[k].0);
            lemma_added_value(reports, items.drop_last(), items.last().0);
            let j = choose|j: int|
                0 <= j < items.drop_last().len() && (#[trigger] items.drop_last()[j]).0
                    == items.last().0 && prev.reports[items.last().0] == items.drop_last()[j].1;
            assert(items[j] == items.drop_last()[j]);
            assert(items[j].0 == items[k].0 && tc.reports[items[k].0] == items[j].1);
        } else {
            assert(tc.added[tc.added.len() - 1] == items[k].0);
            assert(items[k].0 == items.last().0 && tc.reports[items[k].0] == items.last().1);
            assert(items[items.len() - 1].0 == items[k].0 && tc.reports[items[k].0] == items[
                items.len() - 1
            ].1);
        }
    }
}

/// A prefix scan that stopped at the first later slot has found the
/// insertion position.
pub proof fn lemma_insert_pos_unique(l: Seq<(u64, Seq<u8>)>, t: u64, p: int)
    requires
        0 <= p <= l.len(),
        forall|j: int| 0 <= j < p ==> (#[trigger] l[j]).0 <= t,
        p < l.len() ==> l[p].0 > t,
    ensures
        insert_pos(l, t) == p,
    decreases l.len(),
{
    if l.len() == 0 {
    } else if p == 0 {
    } else {
        assert(l[0].0 <= t);
        assert forall|j: int| 0 <= j < p - 1 implies (#[trigger] l.drop_first()[j]).0 <= t by {
            assert(l.drop_first()[j] == l[j + 1]);
        }
        if p - 1 < l.drop_first().len() {
            assert(l.drop_first()[p - 1] == l[p]);
        }
        lemma_insert_pos_unique(l.drop_first(), t, p - 1);
    }
}

/// The identifiers one fold adds are pairwise distinct, and there are
/// never more of them than submitted items.
pub proof fn lemma_triage_core_added_distinct(
    reports: Map<Seq<u8>, Seq<u8>>,
    items: Seq<(Seq<u8>, Seq<u8>)>,
)
    ensures
        ({
            let added = triage_core(reports, items).added;
            &&& forall|i: int, j: int| 0 <= i < j < added.len() ==> added[i] != added[j]
            &&& added.len() <= items.len()
        }),
    decreases items.len(),
{
    if items.len() > 0 {
        lemma_triage_core_added_distinct(reports, items.drop_last());
        lemma_triage_core_frame(reports, items.drop_last());
        let prev = triage_core(reports, items.drop_last());
        let tc = triage_core(reports, items);
        if !prev.reports.contains_key(items.last().0) {
            assert forall|i: int, j: int| 0 <= i < j < tc.added.len() implies tc.added[i]
                != tc.added[j] by {
                if j == tc.added.len() - 1 {
                    assert(tc.added[i] == prev.added[i]);
                    assert(prev.reports.contains_key(prev.added[i]));
                    assert(tc.added[j] == items.last().0);
                } else {
                    assert(tc.added[i] == prev.added[i] && tc.added[j] == prev.added[j]);
                }
            }
        }
    }
}

/// What the ledger holds for an identifier the fold added came from
/// some submitted item carrying that identifier.
pub proof fn lemma_added_value(
    reports: Map<Seq<u8>, Seq<u8>>,
    items: Seq<(Seq<u8>, Seq<u8>)>,
    id: Seq<u8>,
)
    requires
        !reports.contains_key(id),
        triage_core(reports, items).reports.contains_key(id),
    ensures
        exists|j: int|
            0 <= j < items.len() && (#[trigger] items[j]).0 == id && triage_core(
                reports,
                items,
            ).reports[id] == items[j].1,
    decreases items.len(),
{
    let prev = triage_core(reports, items.drop_last());
    let tc = triage_core(reports, items);
    if items.len() == 0 {
    } else if prev.reports.contains_key(items.last().0) {
        lemma_added_value(reports, items.drop_last(), id);
        let j = choose|j: int|
            0 <= j < items.drop_last().len() && (#[trigger] items.drop_last()[j]).0 == id
                && prev.reports[id] == items.drop_last()[j].1;
        assert(items[j] == items.drop_last()[j]);
        assert(items[j].0 == id && tc.reports[id] == items[j].1);
    } else {
        if items.last().0 == id {
            assert(items[items.len() - 1].0 == id && tc.reports[id] == items[items.len() - 1].1);
        } else {
            lemma_added_value(reports, items.drop_last(), id);
            let j = choose|j: int|
                0 <= j < items.drop_last().len() && (#[trigger] items.drop_last()[j]).0 == id
                    && prev.reports[id] == items.drop_last()[j].1;
            assert(items[j] == items.drop_last()[j]);
            assert(items[j].0 == id && tc.reports[id] == items[j].1);
        }
    }
}

} // verus!
