//! Tests of the engine's building blocks: identifier derivation, the
//! canonical slot encoding, the time-ordered index, and progression
//! planning.

use offences_poc::chain::progress_to_block;
use offences_poc::ids::opaque_time_slot;
use offences_poc::ids::report_id;
use offences_poc::pallet::Pallet;
use offences_poc::types::FarmerId;
use offences_poc::types::Kind;
use offences_poc::types::Offence;
use schnorrkel::Keypair;

const KIND: Kind = *b"offence-kind-001";
const OTHER_KIND: Kind = *b"offence-kind-002";

fn generate_farmer_id() -> FarmerId {
    let keypair = Keypair::generate();
    FarmerId::from_slice(&keypair.public.to_bytes())
}

#[test]
fn report_id_is_deterministic() {
    let farmer = generate_farmer_id();
    let first = report_id(&KIND, 42, &farmer);
    let second = report_id(&KIND, 42, &farmer);
    assert_eq!(first, second);
}

#[test]
fn report_id_depends_on_every_input() {
    let farmer = generate_farmer_id();
    let other_farmer = generate_farmer_id();
    let base = report_id(&KIND, 42, &farmer);
    assert_ne!(base, report_id(&OTHER_KIND, 42, &farmer));
    assert_ne!(base, report_id(&KIND, 43, &farmer));
    assert_ne!(base, report_id(&KIND, 42, &other_farmer));
}

#[test]
fn opaque_time_slot_is_little_endian() {
    assert_eq!(opaque_time_slot(42), vec![42, 0, 0, 0, 0, 0, 0, 0]);
    assert_eq!(
        opaque_time_slot(0x0102030405060708),
        vec![8, 7, 6, 5, 4, 3, 2, 1]
    );
}

#[test]
fn accepts_partially_novel_report() {
    let mut offences = Pallet::new();
    let time_slot: u64 = 42;
    let farmer_a = generate_farmer_id();
    let farmer_b = generate_farmer_id();
    let farmer_c = generate_farmer_id();

    offences
        .report_offence(Offence {
            kind: KIND,
            time_slot,
            offenders: vec![farmer_a.clone(), farmer_b.clone()],
        })
        .unwrap();

    // resubmitting the two known offenders together with a novel one
    // succeeds, and the confirmed set carries all three
    let concurrent = offences
        .report_offence(Offence {
            kind: KIND,
            time_slot,
            offenders: vec![farmer_a.clone(), farmer_b.clone(), farmer_c.clone()],
        })
        .unwrap();
    let offenders: Vec<FarmerId> = concurrent.iter().map(|d| d.offender.clone()).collect();
    assert_eq!(concurrent.len(), 3);
    assert!(offenders.contains(&farmer_a));
    assert!(offenders.contains(&farmer_b));
    assert!(offenders.contains(&farmer_c));
}

#[test]
fn aggregates_co_offenders_at_one_instant() {
    let mut offences = Pallet::new();
    let time_slot: u64 = 42;
    let farmer_x = generate_farmer_id();
    let farmer_y = generate_farmer_id();

    offences
        .report_offence(Offence {
            kind: KIND,
            time_slot,
            offenders: vec![farmer_x.clone()],
        })
        .unwrap();
    let concurrent = offences
        .report_offence(Offence {
            kind: KIND,
            time_slot,
            offenders: vec![farmer_y.clone()],
        })
        .unwrap();

    // the second call's returned set carries both offenders
    let offenders: Vec<FarmerId> = concurrent.iter().map(|d| d.offender.clone()).collect();
    assert_eq!(offenders, vec![farmer_x.clone(), farmer_y.clone()]);

    // and the history query for the instant lists both as well
    let history: Vec<FarmerId> = offences
        .offence_reports(&KIND, time_slot)
        .iter()
        .map(|d| d.offender.clone())
        .collect();
    assert_eq!(history, vec![farmer_x, farmer_y]);
}

#[test]
fn treats_time_slots_independently() {
    let mut offences = Pallet::new();
    let farmer = generate_farmer_id();

    let at = |time_slot| Offence {
        kind: KIND,
        time_slot,
        offenders: vec![farmer.clone()],
    };
    assert!(offences.report_offence(at(42)).is_ok());
    assert!(offences.report_offence(at(43)).is_ok());
    assert_eq!(offences.offence_reports(&KIND, 42).len(), 1);
    assert_eq!(offences.offence_reports(&KIND, 43).len(), 1);
}

#[test]
fn keeps_the_time_index_ordered() {
    let mut offences = Pallet::new();
    let early = generate_farmer_id();
    let late = generate_farmer_id();
    let middle = generate_farmer_id();
    let early_again = generate_farmer_id();

    let report = |offences: &mut Pallet, time_slot: u64, farmer: &FarmerId| {
        offences
            .report_offence(Offence {
                kind: KIND,
                time_slot,
                offenders: vec![farmer.clone()],
            })
            .unwrap();
    };
    report(&mut offences, 42, &early);
    report(&mut offences, 44, &late);
    report(&mut offences, 43, &middle);
    report(&mut offences, 42, &early_again);

    let index = offences.same_kind_reports(&KIND);
    let slots: Vec<u64> = index.iter().map(|e| e.0).collect();
    assert_eq!(slots, vec![42, 42, 43, 44]);

    // equal slots keep submission order: the first report of slot 42
    // stands before the one submitted later
    assert_eq!(index[0].1, report_id(&KIND, 42, &early));
    assert_eq!(index[1].1, report_id(&KIND, 42, &early_again));
    assert_eq!(index[2].1, report_id(&KIND, 43, &middle));
    assert_eq!(index[3].1, report_id(&KIND, 44, &late));
}

#[test]
fn indexes_categories_separately() {
    let mut offences = Pallet::new();
    let farmer = generate_farmer_id();
    offences
        .report_offence(Offence {
            kind: KIND,
            time_slot: 42,
            offenders: vec![farmer.clone()],
        })
        .unwrap();
    assert_eq!(offences.same_kind_reports(&KIND).len(), 1);
    assert_eq!(offences.same_kind_reports(&OTHER_KIND).len(), 0);
    assert_eq!(offences.offence_reports(&OTHER_KIND, 42), vec![]);
}

#[test]
fn looks_reports_up_by_identifier() {
    let mut offences = Pallet::new();
    let farmer = generate_farmer_id();
    let id = report_id(&KIND, 42, &farmer);
    assert!(offences.reports(&id).is_none());
    offences
        .report_offence(Offence {
            kind: KIND,
            time_slot: 42,
            offenders: vec![farmer.clone()],
        })
        .unwrap();
    assert_eq!(offences.reports(&id).unwrap().offender, farmer);
}

#[test]
fn knows_the_empty_offender_list() {
    let offences = Pallet::new();
    let no_offenders: Vec<FarmerId> = Vec::new();
    assert!(offences.is_known_offence(&KIND, &no_offenders, 42));
}

#[test]
fn plans_progression_block_by_block() {
    assert_eq!(progress_to_block(2, 6, 5), vec![(3, 7), (4, 8), (5, 9)]);
    assert_eq!(progress_to_block(5, 9, 5), vec![]);
    assert_eq!(progress_to_block(7, 9, 5), vec![]);
    assert_eq!(progress_to_block(0, 0, 1), vec![(1, 1)]);
}
