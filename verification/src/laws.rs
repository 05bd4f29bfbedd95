//! The laws of the engine, proved over the triage model that the
//! entry points' contracts are stated with.

use vstd::prelude::*;

use crate::model::insert_pos;
use crate::model::lemma_insert_pos;
use crate::model::lemma_sorted_insert_all_sorted;
use crate::model::lemma_triage_core_frame;
use crate::model::lemma_triage_core_novel_added;
use crate::model::lemma_triage_core_novel_iff;
use crate::model::sorted_by_slot;
use crate::model::sorted_insert;
use crate::model::sorted_insert_all;
use crate::model::triage_core;
use crate::scale::lemma_scale_u64_injective;
use crate::scale::scale_u64;

verus! {

/// First-report acceptance: an offender whose derived identifier is
/// not yet on record is accepted -- the fold adds it, so the report
/// call returns the concurrent set and deposits exactly one event,
/// per its contract -- and the report is on record afterwards, so a
/// later `is_known_offence` query answers true.
pub proof fn lemma_first_report_accepted(reports: Map<Seq<u8>, Seq<u8>>, id: Seq<u8>, off: Seq<u8>)
    requires
        !reports.contains_key(id),
    ensures
        triage_core(reports, seq![(id, off)]).added.len() > 0,
        triage_core(reports, seq![(id, off)]).reports.contains_key(id),
        triage_core(reports, seq![(id, off)]).reports[id] == off,
{
    let items = seq![(id, off)];
    let nothing = Seq::<(Seq<u8>, Seq<u8>)>::empty();
    assert(items.drop_last() =~= nothing);
    assert(items.last() == (id, off));
    assert(triage_core(reports, nothing).added.len() == 0);
    assert(triage_core(reports, nothing).reports == reports);
}

/// The second half of first-report acceptance, for whole
/// submissions: after a report is triaged, every submitted
/// identifier is on record, so `is_known_offence` answers true for
/// the full offender list.
pub proof fn lemma_triage_core_all_known(
    reports: Map<Seq<u8>, Seq<u8>>,
    items: Seq<(Seq<u8>, Seq<u8>)>,
)
    ensures
        forall|i: int| 0 <= i < items.len() ==> triage_core(reports, items).reports.contains_key(
            (#[trigger] items[i]).0,
        ),
    decreases items.len(),
{
    if items.len() > 0 {
        lemma_triage_core_all_known(reports, items.drop_last());
        lemma_triage_core_frame(reports, items.drop_last());
        let prev = triage_core(reports, items.drop_last());
        let tc = triage_core(reports, items);
        assert forall|i: int| 0 <= i < items.len() implies tc.reports.contains_key(
            (#[trigger] items[i]).0,
        ) by {
            if i < items.len() - 1 {
                assert(items.drop_last()[i] == items[i]);
                assert(prev.reports.contains_key(items[i].0));
                if !prev.reports.contains_key(items.last().0) {
                    assert(tc.reports == prev.reports.insert(items.last().0, items.last().1));
                }
            }
        }
    }
}

/// Exact duplicate rejection: when every submitted identifier is
/// already on record, the fold adds nothing and leaves the ledger
/// exactly as it was -- so the report call returns `DuplicateReport`,
/// deposits no event, and hands nothing to the caller to escalate.
pub proof fn lemma_duplicate_rejected(
    reports: Map<Seq<u8>, Seq<u8>>,
    items: Seq<(Seq<u8>, Seq<u8>)>,
)
    requires
        forall|i: int| 0 <= i < items.len() ==> reports.contains_key((#[trigger] items[i]).0),
    ensures
        triage_core(reports, items).added.len() == 0,
        triage_core(reports, items).reports == reports,
    decreases items.len(),
{
    if items.len() > 0 {
        assert forall|i: int| 0 <= i < items.drop_last().len() implies reports.contains_key(
            (#[trigger] items.drop_last()[i]).0,
        ) by {
            assert(items.drop_last()[i] == items[i]);
        }
        lemma_duplicate_rejected(reports, items.drop_last());
        assert(items[items.len() - 1] == items.last());
        assert(reports.contains_key(items.last().0));
    }
}

/// Partial novelty escalation: known offenders resubmitted together
/// with a novel one succeed, and the returned concurrent-offender set
/// carries every already-recorded co-offender and the novel one too.
pub proof fn lemma_partial_novelty(
    reports: Map<Seq<u8>, Seq<u8>>,
    conc0: Seq<Seq<u8>>,
    items: Seq<(Seq<u8>, Seq<u8>)>,
    k: int,
)
    requires
        forall|i: int| 0 <= i < conc0.len() ==> reports.contains_key(#[trigger] conc0[i]),
        0 <= k < items.len(),
        !reports.contains_key(items[k].0),
    ensures
        ({
            let tc = triage_core(reports, items);
            let out = (conc0 + tc.added).map_values(|id: Seq<u8>| tc.reports[id]);
            &&& tc.added.len() > 0
            &&& forall|j: int| 0 <= j < conc0.len() ==> out.contains(reports[#[trigger] conc0[j]])
            &&& out.contains(tc.reports[items[k].0])
            &&& exists|j: int|
                0 <= j < items.len() && (#[trigger] items[j]).0 == items[k].0 && tc.reports[items[k].0]
                    == items[j].1
        }),
{
    lemma_triage_core_frame(reports, items);
    lemma_triage_core_novel_iff(reports, items);
    lemma_triage_core_novel_added(reports, items, k);
    let tc = triage_core(reports, items);
    let full = conc0 + tc.added;
    let out = full.map_values(|id: Seq<u8>| tc.reports[id]);
    assert(tc.added.len() > 0);
    assert forall|j: int| 0 <= j < conc0.len() implies out.contains(
        reports[#[trigger] conc0[j]],
    ) by {
        assert(full[j] == conc0[j]);
        assert(tc.reports[conc0[j]] == reports[conc0[j]]);
        assert(out[j] == reports[conc0[j]]);
    }
    let i = choose|i: int| 0 <= i < tc.added.len() && tc.added[i] == items[k].0;
    assert(full[conc0.len() + i] == items[k].0);
    assert(out[conc0.len() + i] == tc.reports[items[k].0]);
}

/// Temporal independence: the same offender reported at two different
/// time slots derives two different identifiers -- the identity
/// material differs in the slot's canonical encoding, so only a
/// digest collision could identify them, which the hypothesis rules
/// out -- and the two reports are accepted independently, each
/// leaving the other's record in place and each filed under its own
/// instant key.
pub proof fn lemma_temporal_independence(
    reports: Map<Seq<u8>, Seq<u8>>,
    t1: u64,
    t2: u64,
    id1: Seq<u8>,
    id2: Seq<u8>,
    off: Seq<u8>,
)
    requires
        t1 != t2,
        !reports.contains_key(id1),
        !reports.contains_key(id2),
        id1 != id2,
    ensures
        scale_u64(t1) != scale_u64(t2),
        ({
            let tc1 = triage_core(reports, seq![(id1, off)]);
            let tc2 = triage_core(tc1.reports, seq![(id2, off)]);
            &&& tc1.added.len() > 0
            &&& tc2.added.len() > 0
            &&& tc2.reports.contains_key(id1)
            &&& tc2.reports.contains_key(id2)
        }),
{
    if scale_u64(t1) == scale_u64(t2) {
        lemma_scale_u64_injective(t1, t2);
    }
    lemma_first_report_accepted(reports, id1, off);
    let tc1 = triage_core(reports, seq![(id1, off)]);
    let nothing = Seq::<(Seq<u8>, Seq<u8>)>::empty();
    assert(seq![(id1, off)].drop_last() =~= nothing);
    assert(triage_core(reports, nothing).reports == reports);
    assert(tc1.reports == reports.insert(id1, off));
    assert(!tc1.reports.contains_key(id2));
    lemma_first_report_accepted(tc1.reports, id2, off);
    let tc2 = triage_core(tc1.reports, seq![(id2, off)]);
    assert(seq![(id2, off)].drop_last() =~= nothing);
    assert(triage_core(tc1.reports, nothing).reports == tc1.reports);
    assert(tc2.reports == tc1.reports.insert(id2, off));
    assert(tc2.reports.contains_key(id1));
}

/// Co-offender aggregation: one offender reported at an instant, then
/// a second offender reported at the same instant -- the second
/// call's returned set carries both offenders, and the concurrent
/// list for the instant now lists both identifiers, in order.
pub proof fn lemma_co_offender_aggregation(
    reports: Map<Seq<u8>, Seq<u8>>,
    conc0: Seq<Seq<u8>>,
    idx: Seq<u8>,
    offx: Seq<u8>,
    idy: Seq<u8>,
    offy: Seq<u8>,
)
    requires
        !reports.contains_key(idx),
        !reports.contains_key(idy),
        idx != idy,
    ensures
        ({
            let tc1 = triage_core(reports, seq![(idx, offx)]);
            let conc1 = conc0 + tc1.added;
            let tc2 = triage_core(tc1.reports, seq![(idy, offy)]);
            let conc2 = conc1 + tc2.added;
            let out2 = conc2.map_values(|id: Seq<u8>| tc2.reports[id]);
            &&& tc1.added.len() > 0
            &&& tc2.added.len() > 0
            &&& conc2 == conc0 + seq![idx, idy]
            &&& out2.contains(offx)
            &&& out2.contains(offy)
        }),
{
    lemma_first_report_accepted(reports, idx, offx);
    let tc1 = triage_core(reports, seq![(idx, offx)]);
    let nothing = Seq::<(Seq<u8>, Seq<u8>)>::empty();
    assert(seq![(idx, offx)].drop_last() =~= nothing);
    assert(triage_core(reports, nothing).reports == reports);
    assert(triage_core(reports, nothing).added.len() == 0);
    assert(tc1.reports == reports.insert(idx, offx));
    assert(tc1.added =~= seq![idx]);
    assert(!tc1.reports.contains_key(idy));
    lemma_first_report_accepted(tc1.reports, idy, offy);
    let tc2 = triage_core(tc1.reports, seq![(idy, offy)]);
    assert(seq![(idy, offy)].drop_last() =~= nothing);
    assert(triage_core(tc1.reports, nothing).reports == tc1.reports);
    assert(triage_core(tc1.reports, nothing).added.len() == 0);
    assert(tc2.reports == tc1.reports.insert(idy, offy));
    assert(tc2.added =~= seq![idy]);
    let conc1 = conc0 + tc1.added;
    let conc2 = conc1 + tc2.added;
    assert(conc2 =~= conc0 + seq![idx, idy]);
    let out2 = conc2.map_values(|id: Seq<u8>| tc2.reports[id]);
    assert(conc2[conc0.len() as int] == idx);
    assert(out2[conc0.len() as int] == tc2.reports[idx]);
    assert(tc2.reports[idx] == offx);
    assert(conc2[conc0.len() as int + 1] == idy);
    assert(out2[conc0.len() as int + 1] == tc2.reports[idy]);
    assert(tc2.reports[idy] == offy);
}

/// The entries of one slot, in the order the index keeps them.
pub open spec fn slot_entries(l: Seq<(u64, Seq<u8>)>, t: u64) -> Seq<(u64, Seq<u8>)>
    decreases l.len(),
{
    if l.len() == 0 {
        Seq::empty()
    } else {
        let rest = slot_entries(l.drop_last(), t);
        if l.last().0 == t {
            rest.push(l.last())
        } else {
            rest
        }
    }
}

/// Selecting a slot's entries distributes over concatenation.
proof fn lemma_slot_entries_add(x: Seq<(u64, Seq<u8>)>, y: Seq<(u64, Seq<u8>)>, t: u64)
    ensures
        slot_entries(x + y, t) == slot_entries(x, t) + slot_entries(y, t),
    decreases y.len(),
{
    if y.len() == 0 {
        assert(x + y =~= x);
        assert(slot_entries(y, t) == Seq::<(u64, Seq<u8>)>::empty());
        assert(slot_entries(x, t) + slot_entries(y, t) =~= slot_entries(x, t));
    } else {
        lemma_slot_entries_add(x, y.drop_last(), t);
        assert((x + y).drop_last() =~= x + y.drop_last());
        assert((x + y).last() == y.last());
        if y.last().0 == t {
            assert(slot_entries(x + y, t) == (slot_entries(x, t) + slot_entries(
                y.drop_last(),
                t,
            )).push(y.last()));
            assert(slot_entries(x, t) + slot_entries(y, t) =~= (slot_entries(x, t) + slot_entries(
                y.drop_last(),
                t,
            )).push(y.last()));
        }
    }
}

/// A stretch of entries all after slot `t` contributes nothing to
/// slot `t`.
proof fn lemma_slot_entries_none(s: Seq<(u64, Seq<u8>)>, t: u64)
    requires
        forall|i: int| 0 <= i < s.len() ==> (#[trigger] s[i]).0 != t,
    ensures
        slot_entries(s, t) == Seq::<(u64, Seq<u8>)>::empty(),
    decreases s.len(),
{
    if s.len() > 0 {
        assert forall|i: int| 0 <= i < s.drop_last().len() implies (#[trigger] s.drop_last()[
            i
        ]).0 != t by {
            assert(s.drop_last()[i] == s[i]);
        }
        lemma_slot_entries_none(s.drop_last(), t);
        assert(s[s.len() - 1].0 != t);
    }
}

/// One stable insertion: entries of other slots keep their order
/// untouched, and the new entry joins the end of its own slot's run.
proof fn lemma_sorted_insert_slot_entries(l: Seq<(u64, Seq<u8>)>, t: u64, id: Seq<u8>)
    requires
        sorted_by_slot(l),
    ensures
        forall|u: u64|
            u != t ==> #[trigger] slot_entries(sorted_insert(l, t, id), u) == slot_entries(l, u),
        slot_entries(sorted_insert(l, t, id), t) == slot_entries(l, t).push((t, id)),
{
    let p = insert_pos(l, t);
    lemma_insert_pos(l, t);
    let a = l.subrange(0, p);
    let b = l.subrange(p, l.len() as int);
    let li = sorted_insert(l, t, id);
    assert(li == a.push((t, id)) + b);
    assert(l =~= a + b);
    assert forall|i: int| 0 <= i < b.len() implies b[i].0 > t by {
        assert(b[i] == l[p + i]);
        if p < l.len() {
            assert(l[p].0 <= l[p + i].0 || p == p + i);
        }
    }
    assert forall|u: u64| u != t implies #[trigger] slot_entries(li, u) == slot_entries(l, u) by {
        lemma_slot_entries_add(a.push((t, id)), b, u);
        lemma_slot_entries_add(a, b, u);
        assert(a.push((t, id)).drop_last() =~= a);
        assert(a.push((t, id)).last() == (t, id));
        assert(slot_entries(a.push((t, id)), u) == slot_entries(a, u));
    }
    lemma_slot_entries_add(a.push((t, id)), b, t);
    lemma_slot_entries_add(a, b, t);
    assert forall|i: int| 0 <= i < b.len() implies (#[trigger] b[i]).0 != t by {}
    lemma_slot_entries_none(b, t);
    assert(a.push((t, id)).drop_last() =~= a);
    assert(a.push((t, id)).last() == (t, id));
    assert(slot_entries(a.push((t, id)), t) == slot_entries(a, t).push((t, id)));
    assert(slot_entries(li, t) =~= slot_entries(l, t).push((t, id)));
}

/// Ordering invariant: after a batch of reports for slot `t` joins a
/// sorted per-category index, the index is still non-decreasing by
/// slot; every other slot's entries stand exactly as before; and the
/// new identifiers stand at the end of slot `t`'s run, in submission
/// order.
pub proof fn lemma_ordering_invariant(l: Seq<(u64, Seq<u8>)>, t: u64, ids: Seq<Seq<u8>>)
    requires
        sorted_by_slot(l),
    ensures
        sorted_by_slot(sorted_insert_all(l, t, ids)),
        forall|u: u64|
            u != t ==> #[trigger] slot_entries(sorted_insert_all(l, t, ids), u) == slot_entries(
                l,
                u,
            ),
        slot_entries(sorted_insert_all(l, t, ids), t) == slot_entries(l, t) + ids.map_values(
            |id: Seq<u8>| (t, id),
        ),
    decreases ids.len(),
{
    lemma_sorted_insert_all_sorted(l, t, ids);
    if ids.len() == 0 {
        assert(ids.map_values(|id: Seq<u8>| (t, id)) =~= Seq::<(u64, Seq<u8>)>::empty());
        assert(slot_entries(l, t) + Seq::<(u64, Seq<u8>)>::empty() =~= slot_entries(l, t));
    } else {
        lemma_ordering_invariant(l, t, ids.drop_last());
        let prev = sorted_insert_all(l, t, ids.drop_last());
        lemma_sorted_insert_all_sorted(l, t, ids.drop_last());
        lemma_sorted_insert_slot_entries(prev, t, ids.last());
        assert(sorted_insert_all(l, t, ids) == sorted_insert(prev, t, ids.last()));
        assert(slot_entries(sorted_insert_all(l, t, ids), t) =~= slot_entries(l, t)
            + ids.map_values(|id: Seq<u8>| (t, id)));
    }
}

} // verus!
