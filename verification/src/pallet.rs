//! The offences engine: an append-only report ledger, two auxiliary
//! indices, and the triage entry points that keep them consistent.

use vstd::prelude::*;

use crate::alist::alist_map;
use crate::ids::opaque_time_slot;
use crate::ids::report_id;
use crate::ids::report_id_of;
use crate::model::lemma_insert_pos_unique;
use crate::model::lemma_sorted_insert_all_sorted;
use crate::model::lemma_triage_core_added_distinct;
use crate::model::lemma_triage_core_frame;
use crate::model::lemma_triage_core_novel_iff;
use crate::model::report_items;
use crate::model::sorted_insert;
use crate::model::sorted_insert_all;
use crate::model::triage_core;
use crate::alist::lemma_alist_map_at;
use crate::alist::lemma_alist_map_dom;
use crate::alist::lemma_alist_map_push;
use crate::alist::lemma_alist_map_update;
use crate::alist::unique_keys;
use crate::model::sorted_by_slot;
use crate::scale::entries_view;
use crate::scale::index_encoding;
use crate::scale::scale_decode_index;
use crate::scale::scale_encode_index;
use crate::scale::scale_u64;
use crate::scale::wf_index_list;
use crate::types::Offence;
use crate::types::OffenceError;
use crate::types::bytes_eq;
use crate::types::kind_eq;
use crate::types::report_id_eq;
use crate::types::Event;
use crate::types::FarmerId;
use crate::types::Kind;
use crate::types::OffenceDetails;
use crate::types::ReportId;

verus! {

/// Identifier sequences seen as byte strings.
pub open spec fn ids_view(s: Seq<ReportId>) -> Seq<Seq<u8>> {
    s.map_values(|id: ReportId| id@)
}

/// Offender details seen as their identity bytes.
pub open spec fn offs_view(s: Seq<OffenceDetails>) -> Seq<Seq<u8>> {
    s.map_values(|d: OffenceDetails| d.offender@)
}

/// A list of concurrent-report identifiers is consistent with the
/// ledger: no duplicates, and every identifier resolves.
pub open spec fn conc_ids_ok(ids: Seq<Seq<u8>>, reports: Map<Seq<u8>, Seq<u8>>) -> bool {
    &&& forall|i: int, j: int| 0 <= i < j < ids.len() ==> ids[i] != ids[j]
    &&& forall|i: int| 0 <= i < ids.len() ==> reports.contains_key(#[trigger] ids[i])
}

/// A stored per-category blob is the canonical encoding of some
/// sorted, well-formed index list.
pub open spec fn blob_ok(blob: Seq<u8>) -> bool {
    exists|l: Seq<(u64, Seq<u8>)>|
        wf_index_list(l) && sorted_by_slot(l) && blob == index_encoding(l)
}

/// The offences engine together with the state it persists: the three
/// key-value tables and the events it has deposited.
pub struct Pallet {
    reports: Vec<(ReportId, OffenceDetails)>,
    concurrent_reports_index: Vec<((Kind, Vec<u8>), Vec<ReportId>)>,
    reports_by_kind_index: Vec<(Kind, Vec<u8>)>,
    events: Vec<Event>,
}

impl Pallet {
    /// The ledger entries: identifier bytes paired with offender bytes.
    pub closed spec fn reports_seq(self) -> Seq<(Seq<u8>, Seq<u8>)> {
        self.reports@.map_values(|p: (ReportId, OffenceDetails)| (p.0@, p.1.offender@))
    }

    /// The ledger: report identifier to offender.
    pub open spec fn reports_map(self) -> Map<Seq<u8>, Seq<u8>> {
        alist_map(self.reports_seq())
    }

    /// The concurrent-report entries, keys then identifier lists.
    pub closed spec fn concurrent_seq(self) -> Seq<((Seq<u8>, Seq<u8>), Seq<Seq<u8>>)> {
        self.concurrent_reports_index@.map_values(
            |p: ((Kind, Vec<u8>), Vec<ReportId>)| ((p.0.0@, p.0.1@), ids_view(p.1@)),
        )
    }

    /// The concurrent-report index: category and encoded slot to the
    /// identifiers reported for that instant.
    pub open spec fn concurrent_map(self) -> Map<(Seq<u8>, Seq<u8>), Seq<Seq<u8>>> {
        alist_map(self.concurrent_seq())
    }

    /// The per-category index entries: category to its opaque blob.
    pub closed spec fn kind_blob_seq(self) -> Seq<(Seq<u8>, Seq<u8>)> {
        self.reports_by_kind_index@.map_values(|p: (Kind, Vec<u8>)| (p.0@, p.1@))
    }

    /// The per-category time index, still as stored blobs.
    pub open spec fn kind_blob_map(self) -> Map<Seq<u8>, Seq<u8>> {
        alist_map(self.kind_blob_seq())
    }

    /// The deposited events: category and encoded slot, in order.
    pub closed spec fn events_seq(self) -> Seq<(Seq<u8>, Seq<u8>)> {
        self.events@.map_values(|e: Event| e@)
    }

    /// The identifiers on record for one category and instant, or
    /// nothing if the instant has no entry yet.
    pub open spec fn conc_at(self, kind: Seq<u8>, ots: Seq<u8>) -> Seq<Seq<u8>> {
        if self.concurrent_map().contains_key((kind, ots)) {
            self.concurrent_map()[(kind, ots)]
        } else {
            Seq::empty()
        }
    }

    /// Well-formedness: each table keyed uniquely, concurrent lists
    /// consistent with the ledger, and every stored blob the encoding
    /// of a sorted index list.
    pub open spec fn wf(self) -> bool {
        &&& unique_keys(self.reports_seq())
        &&& unique_keys(self.concurrent_seq())
        &&& unique_keys(self.kind_blob_seq())
        &&& forall|key: (Seq<u8>, Seq<u8>)| #[trigger]
            self.concurrent_map().contains_key(key) ==> conc_ids_ok(
                self.concurrent_map()[key],
                self.reports_map(),
            )
        &&& forall|k: Seq<u8>| #[trigger]
            self.kind_blob_map().contains_key(k) ==> blob_ok(self.kind_blob_map()[k])
    }

    /// A fresh engine: nothing on record, nothing deposited.
    pub fn new() -> (r: Pallet)
        ensures
            r.wf(),
            r.reports_map() == Map::<Seq<u8>, Seq<u8>>::empty(),
            r.concurrent_map() == Map::<(Seq<u8>, Seq<u8>), Seq<Seq<u8>>>::empty(),
            r.kind_blob_map() == Map::<Seq<u8>, Seq<u8>>::empty(),
            r.events_seq() == Seq::<(Seq<u8>, Seq<u8>)>::empty(),
    {
        let r = Pallet {
            reports: Vec::new(),
            concurrent_reports_index: Vec::new(),
            reports_by_kind_index: Vec::new(),
            events: Vec::new(),
        };
        proof {
            assert(r.reports_seq() =~= Seq::<(Seq<u8>, Seq<u8>)>::empty());
            assert(r.concurrent_seq() =~= Seq::<((Seq<u8>, Seq<u8>), Seq<Seq<u8>>)>::empty());
            assert(r.kind_blob_seq() =~= Seq::<(Seq<u8>, Seq<u8>)>::empty());
            assert(r.events_seq() =~= Seq::<(Seq<u8>, Seq<u8>)>::empty());
        }
        r
    }

    /// Whether the ledger holds an entry for the identifier.
    fn reports_contains(&self, id: &ReportId) -> (r: bool)
        ensures
            r == self.reports_map().contains_key(id@),
    {
        proof {
            lemma_alist_map_dom(self.reports_seq(), id@);
        }
        let mut i: usize = 0;
        while i < self.reports.len()
            invariant
                i <= self.reports@.len(),
                forall|j: int| 0 <= j < i ==> (#[trigger] self.reports_seq()[j]).0 != id@,
            decreases self.reports@.len() - i,
        {
            if report_id_eq(&self.reports[i].0, id) {
                proof {
                    lemma_alist_map_dom(self.reports_seq(), id@);
                    assert(self.reports_seq()[i as int].0 == id@);
                }
                return true;
            }
            i += 1;
        }
        false
    }

    /// Looks one report up in the ledger.
    fn reports_get(&self, id: &ReportId) -> (r: Option<&OffenceDetails>)
        requires
            self.wf(),
        ensures
            match r {
                Some(d) => self.reports_map().contains_key(id@) && d.offender@
                    == self.reports_map()[id@],
                None => !self.reports_map().contains_key(id@),
            },
    {
        proof {
            lemma_alist_map_dom(self.reports_seq(), id@);
        }
        let mut i: usize = 0;
        while i < self.reports.len()
            invariant
                self.wf(),
                i <= self.reports@.len(),
                forall|j: int| 0 <= j < i ==> (#[trigger] self.reports_seq()[j]).0 != id@,
            decreases self.reports@.len() - i,
        {
            if report_id_eq(&self.reports[i].0, id) {
                proof {
                    lemma_alist_map_at(self.reports_seq(), i as int);
                }
                return Some(&self.reports[i].1);
            }
            i += 1;
        }
        None
    }

    /// Appends a fresh entry to the ledger. The identifier must be
    /// new: the ledger never overwrites.
    fn reports_insert(&mut self, id: ReportId, details: OffenceDetails)
        requires
            old(self).wf(),
            !old(self).reports_map().contains_key(id@),
        ensures
            final(self).wf(),
            final(self).reports_map() == old(self).reports_map().insert(id@, details.offender@),
            final(self).concurrent_map() == old(self).concurrent_map(),
            final(self).kind_blob_map() == old(self).kind_blob_map(),
            final(self).events_seq() == old(self).events_seq(),
    {
        proof {
            lemma_alist_map_dom(old(self).reports_seq(), id@);
            lemma_alist_map_push(old(self).reports_seq(), id@, details.offender@);
        }
        self.reports.push((id, details));
        proof {
            assert(self.reports_seq() =~= old(self).reports_seq().push((id@, details.offender@)));
            assert(self.concurrent_seq() =~= old(self).concurrent_seq());
            assert(self.kind_blob_seq() =~= old(self).kind_blob_seq());
            assert(self.events_seq() =~= old(self).events_seq());
            let rs = self.reports_seq();
            assert forall|i: int, j: int| 0 <= i < j < rs.len() implies (#[trigger] rs[i]).0
                != (#[trigger] rs[j]).0 by {
                if j == rs.len() - 1 {
                    assert(rs[i] == old(self).reports_seq()[i]);
                }
            }
            assert forall|k: Seq<u8>| #[trigger]
                self.kind_blob_map().contains_key(k) implies blob_ok(self.kind_blob_map()[k]) by {
                assert(self.kind_blob_seq() == old(self).kind_blob_seq());
                assert(old(self).kind_blob_map().contains_key(k));
            }
            assert forall|key: (Seq<u8>, Seq<u8>)| #[trigger]
                self.concurrent_map().contains_key(key) implies conc_ids_ok(
                self.concurrent_map()[key],
                self.reports_map(),
            ) by {
                assert(self.concurrent_seq() == old(self).concurrent_seq());
                assert(old(self).concurrent_map().contains_key(key));
                let ids = self.concurrent_map()[key];
                assert(ids == old(self).concurrent_map()[key]);
                assert(conc_ids_ok(ids, old(self).reports_map()));
                assert forall|i: int| 0 <= i < ids.len() implies self.reports_map().contains_key(
                    #[trigger] ids[i],
                ) by {
                    assert(old(self).reports_map().contains_key(ids[i]));
                }
            }
        }
    }

    /// Reads the identifier list stored for one category and instant.
    fn concurrent_get(&self, kind: &Kind, ots: &Vec<u8>) -> (r: Option<&Vec<ReportId>>)
        requires
            self.wf(),
        ensures
            match r {
                Some(ids) => self.concurrent_map().contains_key((kind@, ots@)) && ids_view(ids@)
                    == self.concurrent_map()[(kind@, ots@)],
                None => !self.concurrent_map().contains_key((kind@, ots@)),
            },
    {
        proof {
            lemma_alist_map_dom(self.concurrent_seq(), (kind@, ots@));
        }
        let mut i: usize = 0;
        while i < self.concurrent_reports_index.len()
            invariant
                self.wf(),
                i <= self.concurrent_reports_index@.len(),
                forall|j: int| 0 <= j < i ==> (#[trigger] self.concurrent_seq()[j]).0 != (
                kind@,
                ots@,
                ),
            decreases self.concurrent_reports_index@.len() - i,
        {
            let hit = kind_eq(&self.concurrent_reports_index[i].0.0, kind) && bytes_eq(
                &self.concurrent_reports_index[i].0.1,
                ots,
            );
            if hit {
                proof {
                    lemma_alist_map_at(self.concurrent_seq(), i as int);
                }
                return Some(&self.concurrent_reports_index[i].1);
            }
            i += 1;
        }
        None
    }

    /// Writes the identifier list for one category and instant,
    /// replacing any list stored before.
    fn concurrent_put(&mut self, kind: &Kind, ots: &Vec<u8>, ids: Vec<ReportId>)
        requires
            old(self).wf(),
        ensures
            final(self).concurrent_map() == old(self).concurrent_map().insert(
                (kind@, ots@),
                ids_view(ids@),
            ),
            final(self).reports_map() == old(self).reports_map(),
            final(self).kind_blob_map() == old(self).kind_blob_map(),
            final(self).events_seq() == old(self).events_seq(),
            unique_keys(final(self).reports_seq()),
            unique_keys(final(self).concurrent_seq()),
            unique_keys(final(self).kind_blob_seq()),
    {
        proof {
            lemma_alist_map_dom(self.concurrent_seq(), (kind@, ots@));
        }
        let key_kind: Kind = *kind;
        let mut key_slot: Vec<u8> = Vec::new();
        let mut c: usize = 0;
        while c < ots.len()
            invariant
                c <= ots@.len(),
                key_slot@ == ots@.take(c as int),
            decreases ots@.len() - c,
        {
            key_slot.push(ots[c]);
            proof {
                assert(key_slot@ =~= ots@.take(c + 1));
            }
            c += 1;
        }
        proof {
            assert(key_slot@ =~= ots@);
        }
        let mut i: usize = 0;
        while i < self.concurrent_reports_index.len()
            invariant
                old(self).wf(),
                *self == *old(self),
                key_slot@ == ots@,
                key_kind@ == kind@,
                i <= self.concurrent_reports_index@.len(),
                forall|j: int| 0 <= j < i ==> (#[trigger] self.concurrent_seq()[j]).0 != (
                kind@,
                ots@,
                ),
            decreases self.concurrent_reports_index@.len() - i,
        {
            let hit = kind_eq(&self.concurrent_reports_index[i].0.0, kind) && bytes_eq(
                &self.concurrent_reports_index[i].0.1,
                ots,
            );
            if hit {
                proof {
                    lemma_alist_map_update(self.concurrent_seq(), i as int, ids_view(ids@));
                }
                self.concurrent_reports_index[i] = ((key_kind, key_slot), ids);
                proof {
                    assert(self.concurrent_seq() =~= old(self).concurrent_seq().update(
                        i as int,
                        ((kind@, ots@), ids_view(ids@)),
                    ));
                    assert(old(self).concurrent_seq()[i as int].0 == (kind@, ots@));
                    assert(self.reports_seq() =~= old(self).reports_seq());
                    assert(self.kind_blob_seq() =~= old(self).kind_blob_seq());
                    assert(self.events_seq() =~= old(self).events_seq());
                    let cs = self.concurrent_seq();
                    let co = old(self).concurrent_seq();
                    assert forall|a: int, b: int| 0 <= a < b < cs.len() implies (#[trigger] cs[a]).0
                        != (#[trigger] cs[b]).0 by {
                        assert(cs[a].0 == co[a].0 && cs[b].0 == co[b].0);
                    }
                }
                return ;
            }
            i += 1;
        }
        proof {
            lemma_alist_map_push(self.concurrent_seq(), (kind@, ots@), ids_view(ids@));
        }
        self.concurrent_reports_index.push(((key_kind, key_slot), ids));
        proof {
            assert(self.concurrent_seq() =~= old(self).concurrent_seq().push(
                ((kind@, ots@), ids_view(ids@)),
            ));
            assert(self.reports_seq() =~= old(self).reports_seq());
            assert(self.kind_blob_seq() =~= old(self).kind_blob_seq());
            assert(self.events_seq() =~= old(self).events_seq());
            let cs = self.concurrent_seq();
            assert forall|a: int, b: int| 0 <= a < b < cs.len() implies (#[trigger] cs[a]).0
                != (#[trigger] cs[b]).0 by {
                if b == cs.len() - 1 {
                    assert(cs[a] == old(self).concurrent_seq()[a]);
                }
            }
        }
    }

    /// Reads the stored per-category blob.
    fn kind_blob_get(&self, kind: &Kind) -> (r: Option<&Vec<u8>>)
        requires
            self.wf(),
        ensures
            match r {
                Some(blob) => self.kind_blob_map().contains_key(kind@) && blob@
                    == self.kind_blob_map()[kind@],
                None => !self.kind_blob_map().contains_key(kind@),
            },
    {
        proof {
            lemma_alist_map_dom(self.kind_blob_seq(), kind@);
        }
        let mut i: usize = 0;
        while i < self.reports_by_kind_index.len()
            invariant
                self.wf(),
                i <= self.reports_by_kind_index@.len(),
                forall|j: int| 0 <= j < i ==> (#[trigger] self.kind_blob_seq()[j]).0 != kind@,
            decreases self.reports_by_kind_index@.len() - i,
        {
            if kind_eq(&self.reports_by_kind_index[i].0, kind) {
                proof {
                    lemma_alist_map_at(self.kind_blob_seq(), i as int);
                }
                return Some(&self.reports_by_kind_index[i].1);
            }
            i += 1;
        }
        None
    }

    /// Writes the per-category blob, replacing any stored before.
    fn kind_blob_put(&mut self, kind: &Kind, blob: Vec<u8>)
        requires
            old(self).wf(),
        ensures
            final(self).kind_blob_map() == old(self).kind_blob_map().insert(kind@, blob@),
            final(self).reports_map() == old(self).reports_map(),
            final(self).concurrent_map() == old(self).concurrent_map(),
            final(self).events_seq() == old(self).events_seq(),
            unique_keys(final(self).reports_seq()),
            unique_keys(final(self).concurrent_seq()),
            unique_keys(final(self).kind_blob_seq()),
    {
        proof {
            lemma_alist_map_dom(self.kind_blob_seq(), kind@);
        }
        let key_kind: Kind = *kind;
        let mut i: usize = 0;
        while i < self.reports_by_kind_index.len()
            invariant
                old(self).wf(),
                *self == *old(self),
                key_kind@ == kind@,
                i <= self.reports_by_kind_index@.len(),
                forall|j: int| 0 <= j < i ==> (#[trigger] self.kind_blob_seq()[j]).0 != kind@,
            decreases self.reports_by_kind_index@.len() - i,
        {
            if kind_eq(&self.reports_by_kind_index[i].0, kind) {
                proof {
                    lemma_alist_map_update(self.kind_blob_seq(), i as int, blob@);
                }
                self.reports_by_kind_index[i] = (key_kind, blob);
                proof {
                    assert(self.kind_blob_seq() =~= old(self).kind_blob_seq().update(
                        i as int,
                        (kind@, blob@),
                    ));
                    assert(old(self).kind_blob_seq()[i as int].0 == kind@);
                    assert(self.reports_seq() =~= old(self).reports_seq());
                    assert(self.concurrent_seq() =~= old(self).concurrent_seq());
                    assert(self.events_seq() =~= old(self).events_seq());
                    let ks = self.kind_blob_seq();
                    let ko = old(self).kind_blob_seq();
                    assert forall|a: int, b: int| 0 <= a < b < ks.len() implies (#[trigger] ks[a]).0
                        != (#[trigger] ks[b]).0 by {
                        assert(ks[a].0 == ko[a].0 && ks[b].0 == ko[b].0);
                    }
                }
                return ;
            }
            i += 1;
        }
        proof {
            lemma_alist_map_push(self.kind_blob_seq(), kind@, blob@);
        }
        self.reports_by_kind_index.push((key_kind, blob));
        proof {
            assert(self.kind_blob_seq() =~= old(self).kind_blob_seq().push((kind@, blob@)));
            assert(self.reports_seq() =~= old(self).reports_seq());
            assert(self.concurrent_seq() =~= old(self).concurrent_seq());
            assert(self.events_seq() =~= old(self).events_seq());
            let ks = self.kind_blob_seq();
            assert forall|a: int, b: int| 0 <= a < b < ks.len() implies (#[trigger] ks[a]).0
                != (#[trigger] ks[b]).0 by {
                if b == ks.len() - 1 {
                    assert(ks[a] == old(self).kind_blob_seq()[a]);
                }
            }
        }
    }
}


/// Copies a list of report identifiers.
fn clone_ids(v: &Vec<ReportId>) -> (r: Vec<ReportId>)
    ensures
        r@ == v@,
{
    let mut r: Vec<ReportId> = Vec::new();
    let mut i: usize = 0;
    while i < v.len()
        invariant
            i <= v@.len(),
            r@ == v@.take(i as int),
        decreases v@.len() - i,
    {
        r.push(v[i]);
        proof {
            assert(r@ =~= v@.take(i + 1));
        }
        i += 1;
    }
    proof {
        assert(v@.take(v@.len() as int) =~= v@);
    }
    r
}

/// An auxiliary object for working with the storage of the indices,
/// localised for one offence kind and one instant. It aggregates all
/// mutations of one submission; the underlying tables change only
/// when `save` runs, and a discarded staging object changes nothing.
#[must_use]
pub struct ReportIndexStorage {
    kind: Kind,
    opaque_time_slot: Vec<u8>,
    concurrent_reports: Vec<ReportId>,
    same_kind_reports: Vec<(u64, ReportId)>,
}

impl ReportIndexStorage {
    /// The category this staging object is scoped to.
    pub closed spec fn kind_view(self) -> Seq<u8> {
        self.kind@
    }

    /// The canonical encoding of the time slot it is scoped to.
    pub closed spec fn ots_view(self) -> Seq<u8> {
        self.opaque_time_slot@
    }

    /// The staged concurrent-report identifiers.
    pub closed spec fn conc_view(self) -> Seq<Seq<u8>> {
        ids_view(self.concurrent_reports@)
    }

    /// The staged time-ordered index.
    pub closed spec fn ki_view(self) -> Seq<(u64, Seq<u8>)> {
        entries_view(self.same_kind_reports@)
    }

    /// Preloads both indices for the given kind and time slot. A
    /// missing per-category blob, or one that does not decode, loads
    /// as the empty index rather than as an error: a deliberate
    /// liveness-over-strictness choice that makes first use and
    /// unreadable history indistinguishable from no history.
    pub fn load(pallet: &Pallet, kind: &Kind, time_slot: u64) -> (r: ReportIndexStorage)
        requires
            pallet.wf(),
        ensures
            r.kind_view() == kind@,
            r.ots_view() == scale_u64(time_slot),
            r.conc_view() == pallet.conc_at(kind@, scale_u64(time_slot)),
            sorted_by_slot(r.ki_view()),
            wf_index_list(r.ki_view()),
            pallet.kind_blob_map().contains_key(kind@) ==> index_encoding(r.ki_view())
                == pallet.kind_blob_map()[kind@],
            !pallet.kind_blob_map().contains_key(kind@) ==> r.ki_view() == Seq::<
                (u64, Seq<u8>),
            >::empty(),
            forall|l: Seq<(u64, Seq<u8>)>|
                wf_index_list(l) && pallet.kind_blob_map().contains_key(kind@)
                    && pallet.kind_blob_map()[kind@] == index_encoding(l) ==> r.ki_view() == l,
    {
        let opaque_time_slot = opaque_time_slot(time_slot);
        let same_kind_reports: Vec<(u64, ReportId)> = match pallet.kind_blob_get(kind) {
            Some(blob) => {
                proof {
                    assert(blob_ok(blob@));
                }
                match scale_decode_index(blob) {
                    Some(entries) => entries,
                    None => Vec::new(),
                }
            },
            None => Vec::new(),
        };
        proof {
            if !pallet.kind_blob_map().contains_key(kind@) {
                assert(entries_view(same_kind_reports@) =~= Seq::<(u64, Seq<u8>)>::empty());
            } else {
                let w = choose|l: Seq<(u64, Seq<u8>)>|
                    wf_index_list(l) && sorted_by_slot(l) && pallet.kind_blob_map()[kind@]
                        == index_encoding(l);
                assert(entries_view(same_kind_reports@) == w);
            }
        }
        let concurrent_reports: Vec<ReportId> = match pallet.concurrent_get(
            kind,
            &opaque_time_slot,
        ) {
            Some(ids) => clone_ids(ids),
            None => Vec::new(),
        };
        let r = ReportIndexStorage {
            kind: *kind,
            opaque_time_slot,
            concurrent_reports,
            same_kind_reports,
        };
        proof {
            if !pallet.concurrent_map().contains_key((kind@, scale_u64(time_slot))) {
                assert(r.conc_view() =~= Seq::<Seq<u8>>::empty());
            }
        }
        r
    }

    /// Stages one new report: `(time_slot, report_id)` goes one past
    /// the last index entry whose slot is at most `time_slot` -- the
    /// stable tie-break among equal slots -- and the identifier is
    /// appended to the staged concurrent list.
    pub fn insert(&mut self, time_slot: u64, report_id: ReportId)
        ensures
            final(self).kind_view() == old(self).kind_view(),
            final(self).ots_view() == old(self).ots_view(),
            final(self).conc_view() == old(self).conc_view().push(report_id@),
            final(self).ki_view() == sorted_insert(old(self).ki_view(), time_slot, report_id@),
    {
        let mut pos: usize = 0;
        while pos < self.same_kind_reports.len() && self.same_kind_reports[pos].0 <= time_slot
            invariant
                *self == *old(self),
                pos <= self.same_kind_reports@.len(),
                forall|j: int| 0 <= j < pos ==> (#[trigger] self.ki_view()[j]).0 <= time_slot,
            decreases self.same_kind_reports@.len() - pos,
        {
            proof {
                assert(self.ki_view()[pos as int].0 == self.same_kind_reports@[pos as int].0);
            }
            pos += 1;
        }
        proof {
            lemma_insert_pos_unique(self.ki_view(), time_slot, pos as int);
        }
        self.same_kind_reports.insert(pos, (time_slot, report_id));
        self.concurrent_reports.push(report_id);
        proof {
            assert(final(self).ki_view() =~= sorted_insert(
                old(self).ki_view(),
                time_slot,
                report_id@,
            ));
            assert(final(self).conc_view() =~= old(self).conc_view().push(report_id@));
        }
    }

    /// Dumps the staged indices to the tables: the one explicit
    /// commit step. Consumes the staging object.
    pub fn save(self, pallet: &mut Pallet)
        requires
            old(pallet).wf(),
            self.ki_view().len() <= u32::MAX,
            sorted_by_slot(self.ki_view()),
            conc_ids_ok(self.conc_view(), old(pallet).reports_map()),
        ensures
            final(pallet).wf(),
            final(pallet).reports_map() == old(pallet).reports_map(),
            final(pallet).events_seq() == old(pallet).events_seq(),
            final(pallet).concurrent_map() == old(pallet).concurrent_map().insert(
                (self.kind_view(), self.ots_view()),
                self.conc_view(),
            ),
            final(pallet).kind_blob_map() == old(pallet).kind_blob_map().insert(
                self.kind_view(),
                index_encoding(self.ki_view()),
            ),
    {
        proof {
            assert(wf_index_list(self.ki_view()));
        }
        let ReportIndexStorage { kind, opaque_time_slot, concurrent_reports, same_kind_reports } =
            self;
        let blob = scale_encode_index(&same_kind_reports);
        pallet.kind_blob_put(&kind, blob);
        pallet.concurrent_put(&kind, &opaque_time_slot, concurrent_reports);
        proof {
            assert forall|key: (Seq<u8>, Seq<u8>)| #[trigger]
                final(pallet).concurrent_map().contains_key(key) implies conc_ids_ok(
                final(pallet).concurrent_map()[key],
                final(pallet).reports_map(),
            ) by {
                if key == (self.kind_view(), self.ots_view()) {
                    assert(final(pallet).concurrent_map()[key] == self.conc_view());
                } else {
                    assert(old(pallet).concurrent_map().contains_key(key));
                    assert(final(pallet).concurrent_map()[key] == old(pallet).concurrent_map()[key]);
                }
            }
            assert forall|k: Seq<u8>| #[trigger]
                final(pallet).kind_blob_map().contains_key(k) implies blob_ok(
                final(pallet).kind_blob_map()[k],
            ) by {
                if k == self.kind_view() {
                    assert(wf_index_list(self.ki_view()) && sorted_by_slot(self.ki_view())
                        && final(pallet).kind_blob_map()[k] == index_encoding(self.ki_view()));
                } else {
                    assert(old(pallet).kind_blob_map().contains_key(k));
                    assert(final(pallet).kind_blob_map()[k] == old(pallet).kind_blob_map()[k]);
                }
            }
        }
    }
}


/// The outcome of triaging one report: the details of every report on
/// record for the same category and instant.
struct TriageOutcome {
    /// Other reports for the same report kinds.
    concurrent_offenders: Vec<OffenceDetails>,
}

/// Room in the per-category index for `n` more entries: the machine
/// bound that the blob encoding imposes on the index length.
pub open spec fn index_room(p: Pallet, kind: Seq<u8>, n: nat) -> bool {
    &&& n <= u32::MAX
    &&& p.kind_blob_map().contains_key(kind) ==> forall|l: Seq<(u64, Seq<u8>)>|
        wf_index_list(l) && p.kind_blob_map()[kind] == index_encoding(l) ==> l.len() + n
            <= u32::MAX
}

impl Pallet {
    /// Triages one offence report: records every offender not yet on
    /// record for this category and slot, and returns the details of
    /// all reports for the instant; returns nothing, and changes
    /// nothing, when the whole submission is already on record.
    fn triage_offence_report(
        &mut self,
        kind: &Kind,
        time_slot: u64,
        offenders: Vec<FarmerId>,
    ) -> (r: Option<TriageOutcome>)
        requires
            old(self).wf(),
            index_room(*old(self), kind@, offenders@.len() as nat),
        ensures
            final(self).wf(),
            ({
                let items = report_items(kind@, time_slot, offenders@);
                let tc = triage_core(old(self).reports_map(), items);
                let ots = scale_u64(time_slot);
                let conc0 = old(self).conc_at(kind@, ots);
                &&& (r is Some <==> tc.added.len() > 0)
                &&& (r is None ==> final(self).reports_map() == old(self).reports_map() && final(self).concurrent_map() == old(self).concurrent_map() && final(self).kind_blob_map()
                    == old(self).kind_blob_map() && final(self).events_seq() == old(self).events_seq())
                &&& (r matches Some(out) ==> ({
                    &&& final(self).reports_map() == tc.reports
                    &&& final(self).concurrent_map() == old(self).concurrent_map().insert(
                        (kind@, ots),
                        conc0 + tc.added,
                    )
                    &&& (old(self).kind_blob_map().contains_key(kind@) ==> forall|
                        l: Seq<(u64, Seq<u8>)>,
                    |
                        wf_index_list(l) && old(self).kind_blob_map()[kind@] == index_encoding(l)
                            ==> final(self).kind_blob_map() == old(self).kind_blob_map().insert(
                            kind@,
                            index_encoding(sorted_insert_all(l, time_slot, tc.added)),
                        ))
                    &&& (!old(self).kind_blob_map().contains_key(kind@) ==> final(self).kind_blob_map() == old(self).kind_blob_map().insert(
                        kind@,
                        index_encoding(
                            sorted_insert_all(Seq::<(u64, Seq<u8>)>::empty(), time_slot, tc.added),
                        ),
                    ))
                    &&& final(self).events_seq() == old(self).events_seq()
                    &&& offs_view(out.concurrent_offenders@) == (conc0 + tc.added).map_values(
                        |id: Seq<u8>| tc.reports[id],
                    )
                }))
            }),
    {
        let ghost items = report_items(kind@, time_slot, offenders@);
        let ghost reports0 = self.reports_map();
        let mut storage = ReportIndexStorage::load(self, kind, time_slot);
        let ghost ki0 = storage.ki_view();
        let ghost conc0 = storage.conc_view();
        proof {
            assert(conc_ids_ok(conc0, reports0)) by {
                if self.concurrent_map().contains_key((kind@, scale_u64(time_slot))) {
                } else {
                    assert(conc0 == Seq::<Seq<u8>>::empty());
                }
            }
            assert(items.take(0) =~= Seq::<(Seq<u8>, Seq<u8>)>::empty());
        }
        let mut any_new = false;
        let mut idx: usize = 0;
        while idx < offenders.len()
            invariant
                idx <= offenders@.len(),
                items == report_items(kind@, time_slot, offenders@),
                reports0 == old(self).reports_map(),
                conc_ids_ok(conc0, reports0),
                self.wf(),
                self.reports_map() == triage_core(reports0, items.take(idx as int)).reports,
                storage.conc_view() == conc0 + triage_core(
                    reports0,
                    items.take(idx as int),
                ).added,
                storage.ki_view() == sorted_insert_all(
                    ki0,
                    time_slot,
                    triage_core(reports0, items.take(idx as int)).added,
                ),
                any_new == (triage_core(reports0, items.take(idx as int)).added.len() > 0),
                storage.kind_view() == kind@,
                storage.ots_view() == scale_u64(time_slot),
                self.concurrent_map() == old(self).concurrent_map(),
                self.kind_blob_map() == old(self).kind_blob_map(),
                self.events_seq() == old(self).events_seq(),
            decreases offenders@.len() - idx,
        {
            let offender = offenders[idx];
            let rid = report_id(kind, time_slot, &offender);
            proof {
                assert(items[idx as int] == (
                    report_id_of(kind@, time_slot, offenders@[idx as int]@),
                    offenders@[idx as int]@,
                ));
                assert(items.take(idx + 1).drop_last() =~= items.take(idx as int));
                assert(items.take(idx + 1).last() == items[idx as int]);
            }
            let ghost tc_prev = triage_core(reports0, items.take(idx as int));
            let ghost tc_next = triage_core(reports0, items.take(idx + 1));
            if !self.reports_contains(&rid) {
                any_new = true;
                self.reports_insert(rid, OffenceDetails { offender });
                storage.insert(time_slot, rid);
                proof {
                    assert(tc_next.reports == tc_prev.reports.insert(rid@, offender@));
                    assert(tc_next.added == tc_prev.added.push(rid@));
                    assert(storage.conc_view() =~= conc0 + tc_next.added);
                    assert(tc_next.added.drop_last() =~= tc_prev.added);
                    assert(storage.ki_view() == sorted_insert_all(ki0, time_slot, tc_next.added));
                }
            } else {
                proof {
                    assert(tc_next == tc_prev);
                }
            }
            idx += 1;
        }
        proof {
            assert(items.take(offenders@.len() as int) =~= items);
        }
        let ghost tc = triage_core(reports0, items);
        if any_new {
            proof {
                lemma_triage_core_frame(reports0, items);
                lemma_triage_core_added_distinct(reports0, items);
            }
            let mut concurrent_offenders: Vec<OffenceDetails> = Vec::new();
            let mut i: usize = 0;
            while i < storage.concurrent_reports.len()
                invariant
                    i <= storage.conc_view().len(),
                    items == report_items(kind@, time_slot, offenders@),
                    reports0 == old(self).reports_map(),
                    conc_ids_ok(conc0, reports0),
                    self.wf(),
                    self.reports_map() == triage_core(reports0, items).reports,
                    storage.conc_view() == conc0 + triage_core(reports0, items).added,
                    concurrent_offenders@.len() == i,
                    forall|j: int|
                        0 <= j < i ==> (#[trigger] concurrent_offenders@[j]).offender@
                            == triage_core(reports0, items).reports[storage.conc_view()[j]],
                decreases storage.conc_view().len() - i,
            {
                proof {
                    lemma_triage_core_frame(reports0, items);
                    let id = storage.conc_view()[i as int];
                    if i < conc0.len() {
                        assert(id == conc0[i as int]);
                        assert(reports0.contains_key(id));
                    } else {
                        assert(id == triage_core(reports0, items).added[i - conc0.len()]);
                    }
                    assert(self.reports_map().contains_key(id));
                }
                match self.reports_get(&storage.concurrent_reports[i]) {
                    Some(details) => {
                        let d = *details;
                        concurrent_offenders.push(d);
                    },
                    None => {
                        proof {
                            assert(false);
                        }
                    },
                }
                i += 1;
            }
            proof {
                lemma_triage_core_frame(reports0, items);
                lemma_triage_core_added_distinct(reports0, items);
                lemma_sorted_insert_all_sorted(ki0, time_slot, tc.added);
                assert(storage.ki_view().len() <= u32::MAX) by {
                    assert(tc.added.len() <= items.len());
                    if old(self).kind_blob_map().contains_key(kind@) {
                        assert(wf_index_list(ki0) && old(self).kind_blob_map()[kind@]
                            == index_encoding(ki0));
                        assert(ki0.len() + offenders@.len() <= u32::MAX);
                    } else {
                        assert(ki0 == Seq::<(u64, Seq<u8>)>::empty());
                    }
                }
                assert(conc_ids_ok(storage.conc_view(), self.reports_map())) by {
                    let cv = storage.conc_view();
                    assert forall|a: int, b: int| 0 <= a < b < cv.len() implies cv[a] != cv[b] by {
                        if a < conc0.len() && b >= conc0.len() {
                            assert(cv[a] == conc0[a]);
                            assert(cv[b] == tc.added[b - conc0.len()]);
                            assert(reports0.contains_key(conc0[a]));
                            assert(!reports0.contains_key(tc.added[b - conc0.len()]));
                        } else if a >= conc0.len() {
                            assert(cv[a] == tc.added[a - conc0.len()]);
                            assert(cv[b] == tc.added[b - conc0.len()]);
                        } else {
                            assert(cv[a] == conc0[a] && cv[b] == conc0[b]);
                        }
                    }
                    assert forall|a: int| 0 <= a < cv.len() implies self.reports_map().contains_key(
                        #[trigger] cv[a],
                    ) by {
                        if a < conc0.len() {
                            assert(cv[a] == conc0[a]);
                            assert(reports0.contains_key(conc0[a]));
                        } else {
                            assert(cv[a] == tc.added[a - conc0.len()]);
                        }
                    }
                }
                assert(offs_view(concurrent_offenders@) =~= (conc0 + tc.added).map_values(
                    |id: Seq<u8>| tc.reports[id],
                ));
            }
            storage.save(self);
            Some(TriageOutcome { concurrent_offenders })
        } else {
            proof {
                assert(tc.added.len() == 0);
                lemma_triage_core_frame(reports0, items);
                assert(tc.reports =~= reports0);
            }
            None
        }
    }

    /// Deposits one domain event.
    fn deposit_event(&mut self, event: Event)
        ensures
            final(self).events_seq() == old(self).events_seq().push(event@),
            final(self).reports_map() == old(self).reports_map(),
            final(self).concurrent_map() == old(self).concurrent_map(),
            final(self).kind_blob_map() == old(self).kind_blob_map(),
            old(self).wf() ==> final(self).wf(),
    {
        self.events.push(event);
        proof {
            assert(final(self).events_seq() =~= old(self).events_seq().push(event@));
            assert(final(self).reports_seq() =~= old(self).reports_seq());
            assert(final(self).concurrent_seq() =~= old(self).concurrent_seq());
            assert(final(self).kind_blob_seq() =~= old(self).kind_blob_seq());
        }
    }

    /// Reports an offence: every offender not yet on record for the
    /// category and slot is recorded and the staged indices commit,
    /// one `Offence` event is deposited, and the full set of
    /// concurrent offenders comes back for escalation. A submission
    /// in which every offender is already on record is rejected with
    /// `DuplicateReport`, deposits no event, and changes nothing.
    pub fn report_offence(&mut self, offence: Offence) -> (r: Result<
        Vec<OffenceDetails>,
        OffenceError,
    >)
        requires
            old(self).wf(),
            index_room(*old(self), offence.kind@, offence.offenders@.len() as nat),
        ensures
            final(self).wf(),
            ({
                let items = report_items(offence.kind@, offence.time_slot, offence.offenders@);
                let tc = triage_core(old(self).reports_map(), items);
                let ots = scale_u64(offence.time_slot);
                let conc0 = old(self).conc_at(offence.kind@, ots);
                &&& (r is Ok <==> exists|i: int|
                    0 <= i < items.len() && !old(self).reports_map().contains_key(
                        (#[trigger] items[i]).0,
                    ))
                &&& (r is Err ==> r == Err::<Vec<OffenceDetails>, OffenceError>(
                    OffenceError::DuplicateReport,
                ) && final(self).reports_map() == old(self).reports_map() && final(self).concurrent_map() == old(self).concurrent_map() && final(self).kind_blob_map()
                    == old(self).kind_blob_map() && final(self).events_seq() == old(self).events_seq())
                &&& (r matches Ok(out) ==> ({
                    &&& final(self).reports_map() == tc.reports
                    &&& final(self).concurrent_map() == old(self).concurrent_map().insert(
                        (offence.kind@, ots),
                        conc0 + tc.added,
                    )
                    &&& (old(self).kind_blob_map().contains_key(offence.kind@) ==> forall|
                        l: Seq<(u64, Seq<u8>)>,
                    |
                        wf_index_list(l) && old(self).kind_blob_map()[offence.kind@]
                            == index_encoding(l) ==> final(self).kind_blob_map() == old(self).kind_blob_map().insert(
                            offence.kind@,
                            index_encoding(sorted_insert_all(l, offence.time_slot, tc.added)),
                        ))
                    &&& (!old(self).kind_blob_map().contains_key(offence.kind@) ==> final(self).kind_blob_map() == old(self).kind_blob_map().insert(
                        offence.kind@,
                        index_encoding(
                            sorted_insert_all(
                                Seq::<(u64, Seq<u8>)>::empty(),
                                offence.time_slot,
                                tc.added,
                            ),
                        ),
                    ))
                    &&& final(self).events_seq() == old(self).events_seq().push(
                        (offence.kind@, ots),
                    )
                    &&& offs_view(out@) == (conc0 + tc.added).map_values(
                        |id: Seq<u8>| tc.reports[id],
                    )
                }))
            }),
    {
        let Offence { kind, time_slot, offenders } = offence;
        proof {
            lemma_triage_core_novel_iff(
                self.reports_map(),
                report_items(kind@, time_slot, offenders@),
            );
        }
        match self.triage_offence_report(&kind, time_slot, offenders) {
            Some(outcome) => {
                let ots = opaque_time_slot(time_slot);
                self.deposit_event(Event::Offence(kind, ots));
                Ok(outcome.concurrent_offenders)
            },
            None => Err(OffenceError::DuplicateReport),
        }
    }

    /// Whether every offender in the list is already on record for
    /// this category and time slot: a pure read.
    pub fn is_known_offence(&self, kind: &Kind, offenders: &Vec<FarmerId>, time_slot: u64) -> (r:
        bool)
        ensures
            r == (forall|i: int|
                0 <= i < offenders@.len() ==> self.reports_map().contains_key(
                    report_id_of(kind@, time_slot, (#[trigger] offenders@[i])@),
                )),
    {
        let mut i: usize = 0;
        while i < offenders.len()
            invariant
                i <= offenders@.len(),
                forall|j: int|
                    0 <= j < i ==> self.reports_map().contains_key(
                        report_id_of(kind@, time_slot, (#[trigger] offenders@[j])@),
                    ),
            decreases offenders@.len() - i,
        {
            let rid = report_id(kind, time_slot, &offenders[i]);
            if !self.reports_contains(&rid) {
                proof {
                    assert(!self.reports_map().contains_key(
                        report_id_of(kind@, time_slot, offenders@[i as int]@),
                    ));
                }
                return false;
            }
            i += 1;
        }
        true
    }

    /// Looks one report up in the ledger: the public getter.
    pub fn reports(&self, report_id: &ReportId) -> (r: Option<OffenceDetails>)
        requires
            self.wf(),
        ensures
            match r {
                Some(d) => self.reports_map().contains_key(report_id@) && d.offender@
                    == self.reports_map()[report_id@],
                None => !self.reports_map().contains_key(report_id@),
            },
    {
        match self.reports_get(report_id) {
            Some(d) => Some(*d),
            None => None,
        }
    }

    /// The details of every report on record for one category and
    /// instant.
    pub fn offence_reports(&self, kind: &Kind, time_slot: u64) -> (r: Vec<OffenceDetails>)
        requires
            self.wf(),
        ensures
            offs_view(r@) == self.conc_at(kind@, scale_u64(time_slot)).map_values(
                |id: Seq<u8>| self.reports_map()[id],
            ),
    {
        let ots = opaque_time_slot(time_slot);
        let mut out: Vec<OffenceDetails> = Vec::new();
        match self.concurrent_get(kind, &ots) {
            Some(ids) => {
                let ghost cv = self.conc_at(kind@, scale_u64(time_slot));
                let mut i: usize = 0;
                while i < ids.len()
                    invariant
                        i <= ids@.len(),
                        self.wf(),
                        cv == self.conc_at(kind@, scale_u64(time_slot)),
                        self.concurrent_map().contains_key((kind@, scale_u64(time_slot))),
                        ids_view(ids@) == cv,
                        out@.len() == i,
                        forall|j: int|
                            0 <= j < i ==> (#[trigger] out@[j]).offender@
                                == self.reports_map()[cv[j]],
                    decreases ids@.len() - i,
                {
                    proof {
                        assert(conc_ids_ok(cv, self.reports_map()));
                        assert(cv[i as int] == ids@[i as int]@);
                    }
                    match self.reports_get(&ids[i]) {
                        Some(details) => {
                            let d = *details;
                            out.push(d);
                        },
                        None => {
                            proof {
                                assert(false);
                            }
                        },
                    }
                    i += 1;
                }
            },
            None => {},
        }
        proof {
            assert(offs_view(out@) =~= self.conc_at(kind@, scale_u64(time_slot)).map_values(
                |id: Seq<u8>| self.reports_map()[id],
            ));
        }
        out
    }

    /// The full time-ordered report history of one category:
    /// non-decreasing by slot, equal slots in submission order.
    pub fn same_kind_reports(&self, kind: &Kind) -> (r: Vec<(u64, ReportId)>)
        requires
            self.wf(),
        ensures
            sorted_by_slot(entries_view(r@)),
            wf_index_list(entries_view(r@)),
            self.kind_blob_map().contains_key(kind@) ==> index_encoding(entries_view(r@))
                == self.kind_blob_map()[kind@],
            !self.kind_blob_map().contains_key(kind@) ==> entries_view(r@) == Seq::<
                (u64, Seq<u8>),
            >::empty(),
            forall|l: Seq<(u64, Seq<u8>)>|
                wf_index_list(l) && self.kind_blob_map().contains_key(kind@)
                    && self.kind_blob_map()[kind@] == index_encoding(l) ==> entries_view(r@) == l,
    {
        let entries: Vec<(u64, ReportId)> = match self.kind_blob_get(kind) {
            Some(blob) => {
                proof {
                    assert(blob_ok(blob@));
                }
                match scale_decode_index(blob) {
                    Some(entries) => entries,
                    None => Vec::new(),
                }
            },
            None => Vec::new(),
        };
        proof {
            if !self.kind_blob_map().contains_key(kind@) {
                assert(entries_view(entries@) =~= Seq::<(u64, Seq<u8>)>::empty());
            } else {
                let w = choose|l: Seq<(u64, Seq<u8>)>|
                    wf_index_list(l) && sorted_by_slot(l) && self.kind_blob_map()[kind@]
                        == index_encoding(l);
                assert(entries_view(entries@) == w);
            }
        }
        entries
    }

    /// The events deposited so far, oldest first.
    pub fn events(&self) -> (r: &Vec<Event>)
        ensures
            r@.map_values(|e: Event| e@) == self.events_seq(),
    {
        &self.events
    }
}

} // verus!
