//! Tests of the offence triage engine: acceptance, deduplication,
//! events, and the co-offender sets handed back for escalation.

use offences_poc::ids::opaque_time_slot;
use offences_poc::pallet::Pallet;
use offences_poc::types::Event;
use offences_poc::types::FarmerId;
use offences_poc::types::Kind;
use offences_poc::types::Offence;
use offences_poc::types::OffenceDetails;
use offences_poc::types::OffenceError;
use schnorrkel::Keypair;

const KIND: Kind = *b"offence-kind-001";

fn generate_farmer_id() -> FarmerId {
    let keypair = Keypair::generate();
    FarmerId::from_slice(&keypair.public.to_bytes())
}

/// The punitive handler of these tests: records one slash fraction of
/// 25 percent for every escalation it receives.
fn on_offence(fractions: &mut Vec<u32>, _concurrent_offenders: &[OffenceDetails]) {
    fractions.push(25);
}

fn report_and_handle(
    offences: &mut Pallet,
    offence: Offence,
    fractions: &mut Vec<u32>,
) -> Result<Vec<OffenceDetails>, OffenceError> {
    let result = offences.report_offence(offence);
    if let Ok(concurrent_offenders) = &result {
        on_offence(fractions, concurrent_offenders);
    }
    result
}

#[test]
fn should_report_an_farmer_and_trigger_on_offence() {
    let mut offences = Pallet::new();
    let mut fractions: Vec<u32> = Vec::new();

    // given
    let time_slot: u64 = 42;
    assert_eq!(offences.offence_reports(&KIND, time_slot), vec![]);

    let offence = Offence {
        kind: KIND,
        time_slot,
        offenders: vec![generate_farmer_id()],
    };

    // when
    report_and_handle(&mut offences, offence, &mut fractions).unwrap();

    // then
    assert_eq!(fractions.clone(), vec![25]);
}

#[test]
fn should_not_report_the_same_farmer_twice_in_the_same_slot() {
    let mut offences = Pallet::new();
    let mut fractions: Vec<u32> = Vec::new();

    // given
    let time_slot: u64 = 42;
    assert_eq!(offences.offence_reports(&KIND, time_slot), vec![]);

    let offence = Offence {
        kind: KIND,
        time_slot,
        offenders: vec![generate_farmer_id()],
    };
    report_and_handle(&mut offences, offence.clone(), &mut fractions).unwrap();
    assert_eq!(fractions.clone(), vec![25]);
    fractions.clear();

    // when
    // report for the second time
    assert_eq!(
        report_and_handle(&mut offences, offence, &mut fractions),
        Err(OffenceError::DuplicateReport)
    );

    // then
    assert_eq!(fractions.clone(), vec![]);
}

#[test]
fn should_report_in_different_time_slot() {
    let mut offences = Pallet::new();
    let mut fractions: Vec<u32> = Vec::new();

    // given
    let time_slot: u64 = 42;
    assert_eq!(offences.offence_reports(&KIND, time_slot), vec![]);

    let mut offence = Offence {
        kind: KIND,
        time_slot,
        offenders: vec![generate_farmer_id()],
    };
    report_and_handle(&mut offences, offence.clone(), &mut fractions).unwrap();
    assert_eq!(fractions.clone(), vec![25]);
    fractions.clear();

    // when
    // report for the second time
    offence.time_slot += 1;
    report_and_handle(&mut offences, offence, &mut fractions).unwrap();

    // then
    assert_eq!(fractions.clone(), vec![25]);
}

#[test]
fn should_deposit_event() {
    let mut offences = Pallet::new();

    // given
    let time_slot: u64 = 42;
    assert_eq!(offences.offence_reports(&KIND, time_slot), vec![]);

    let offence = Offence {
        kind: KIND,
        time_slot,
        offenders: vec![generate_farmer_id()],
    };

    // when
    offences.report_offence(offence).unwrap();

    // then
    assert_eq!(
        offences.events().clone(),
        vec![Event::Offence(KIND, opaque_time_slot(time_slot))]
    );
}

#[test]
fn doesnt_deposit_event_for_dups() {
    let mut offences = Pallet::new();
    let mut fractions: Vec<u32> = Vec::new();

    // given
    let time_slot: u64 = 42;
    assert_eq!(offences.offence_reports(&KIND, time_slot), vec![]);

    let offence = Offence {
        kind: KIND,
        time_slot,
        offenders: vec![generate_farmer_id()],
    };
    report_and_handle(&mut offences, offence.clone(), &mut fractions).unwrap();
    assert_eq!(fractions.clone(), vec![25]);
    fractions.clear();

    // when
    // report for the second time
    assert_eq!(
        report_and_handle(&mut offences, offence, &mut fractions),
        Err(OffenceError::DuplicateReport)
    );

    // then
    // there is only one event.
    assert_eq!(
        offences.events().clone(),
        vec![Event::Offence(KIND, opaque_time_slot(time_slot))]
    );
}

#[test]
fn reports_if_an_offence_is_dup() {
    let mut offences = Pallet::new();

    let time_slot: u64 = 42;
    assert_eq!(offences.offence_reports(&KIND, time_slot), vec![]);

    let farmer_0 = generate_farmer_id();
    let farmer_1 = generate_farmer_id();

    let offence = |time_slot, offenders| Offence {
        kind: KIND,
        time_slot,
        offenders,
    };

    let mut test_offence = offence(time_slot, vec![farmer_0.clone()]);

    // the report for farmer 0 at time slot 42 should not be a known
    // offence
    assert!(!offences.is_known_offence(&KIND, &test_offence.offenders, test_offence.time_slot));

    // we report an offence for farmer 0 at time slot 42
    offences.report_offence(test_offence.clone()).unwrap();

    // the same report should be a known offence now
    assert!(offences.is_known_offence(&KIND, &test_offence.offenders, test_offence.time_slot));

    // and reporting it again should yield a duplicate report error
    assert_eq!(
        offences.report_offence(test_offence.clone()),
        Err(OffenceError::DuplicateReport)
    );

    // after adding a new offender to the offence report
    test_offence.offenders.push(farmer_1.clone());

    // it should not be a known offence anymore
    assert!(!offences.is_known_offence(&KIND, &test_offence.offenders, test_offence.time_slot));

    // and reporting it again should work without any error
    assert!(offences.report_offence(test_offence.clone()).is_ok());

    // creating a new offence for the same farmers on the next slot
    // should be considered a new offence and therefore not known
    let test_offence_next_slot = offence(time_slot + 1, vec![farmer_0, farmer_1]);
    assert!(!offences.is_known_offence(
        &KIND,
        &test_offence_next_slot.offenders,
        test_offence_next_slot.time_slot
    ));
}

#[test]
fn should_properly_count_offences() {
    // We report two different farmers for the same issue. Ultimately, the 1st farmer
    // should have `count` equal 2 and the count of the 2nd one should be equal to 1.
    let mut offences = Pallet::new();
    let mut fractions: Vec<u32> = Vec::new();

    // given
    let time_slot: u64 = 42;
    assert_eq!(offences.offence_reports(&KIND, time_slot), vec![]);

    let farmer_1 = generate_farmer_id();
    let farmer_2 = generate_farmer_id();

    let offence1 = Offence {
        kind: KIND,
        time_slot,
        offenders: vec![farmer_1.clone()],
    };
    let offence2 = Offence {
        kind: KIND,
        time_slot,
        offenders: vec![farmer_2.clone()],
    };
    report_and_handle(&mut offences, offence1, &mut fractions).unwrap();
    assert_eq!(fractions.clone(), vec![25]);
    fractions.clear();

    // when
    // report for the second time
    report_and_handle(&mut offences, offence2, &mut fractions).unwrap();

    // then
    // the 1st farmer should have count 2 and the 2nd one should be reported only once.
    assert_eq!(
        offences.offence_reports(&KIND, time_slot),
        vec![
            OffenceDetails { offender: farmer_1 },
            OffenceDetails { offender: farmer_2 },
        ]
    );
}
