use rinex_cli::ephemeris::{Constellation, EphemerisBuffer, EphemerisFrame, SatelliteId};
use rinex_cli::ppp::{
    resolve, ObservableKind, ObservationAggregator, SignalObservation, Solutions,
};
use rinex_cli::{cast_rtk_carrier, positioning_outcome, rtk_carrier_cast, Carrier, CarrierError, Error, RtkCarrier};

const HOUR_NS: u64 = 3_600_000_000_000;

fn sat(prn: u8) -> SatelliteId {
    SatelliteId { constellation: Constellation::Gps, prn }
}

fn sample(epoch: u64, prn: u8, carrier: Carrier, kind: ObservableKind, value: f64) -> SignalObservation {
    SignalObservation { epoch_ns: epoch, sv: sat(prn), carrier, kind, value_bits: value.to_bits() }
}

fn wide_open_frame(prn: u8) -> EphemerisFrame {
    EphemerisFrame {
        sv: sat(prn),
        toc_ns: 0,
        toe_ns: 0,
        valid_from_ns: 0,
        valid_until_ns: u64::MAX,
        tgd_ns: None,
        payload: 0,
    }
}

/// Two samples of one satellite at t1 and t2 > t1: exactly one batch, for
/// t1, with a single candidate holding the t1 pseudorange; the t2 sample is
/// held pending.
#[test]
fn one_batch_per_closed_timestamp() {
    let t1: u64 = 10 * HOUR_NS;
    let t2: u64 = t1 + HOUR_NS;
    let mut buffer = EphemerisBuffer::new(vec![wide_open_frame(7)]);
    let mut aggregator = ObservationAggregator::new();

    let first = aggregator.process(
        &mut buffer,
        sample(t1, 7, Carrier::L1, ObservableKind::PseudoRange, 20000000.0),
    );
    assert!(first.is_none());

    let second = aggregator.process(
        &mut buffer,
        sample(t2, 7, Carrier::L1, ObservableKind::PseudoRange, 20000010.0),
    );
    let batch = second.expect("the newer timestamp closes the prior one");
    assert_eq!(batch.epoch_ns, t1);
    assert_eq!(batch.candidates.len(), 1);
    let candidate = &batch.candidates[0];
    assert_eq!(candidate.sv, sat(7));
    assert_eq!(candidate.epoch_ns, t1);
    assert_eq!(candidate.observations.len(), 1);
    assert_eq!(candidate.observations[0].carrier, RtkCarrier::L1);
    assert_eq!(candidate.observations[0].pseudo_range_bits, Some(20000000.0f64.to_bits()));
    assert_eq!(candidate.observations[0].phase_range_bits, None);
    assert_eq!(candidate.observations[0].doppler_bits, None);
}

/// One record per satellite and band: the three observable kinds of a band
/// populate one record, and a repeated kind updates its field in place.
#[test]
fn band_records_merge_in_place() {
    let t1: u64 = 10 * HOUR_NS;
    let t2: u64 = t1 + HOUR_NS;
    let mut buffer = EphemerisBuffer::new(vec![wide_open_frame(7)]);
    let mut aggregator = ObservationAggregator::new();

    aggregator.process(&mut buffer, sample(t1, 7, Carrier::L1, ObservableKind::PseudoRange, 20000000.0));
    aggregator.process(&mut buffer, sample(t1, 7, Carrier::L1, ObservableKind::PhaseRange, 105000000.5));
    aggregator.process(&mut buffer, sample(t1, 7, Carrier::L2, ObservableKind::Doppler, -1200.25));
    aggregator.process(&mut buffer, sample(t1, 7, Carrier::L1, ObservableKind::PseudoRange, 20000001.0));

    let batch = aggregator
        .process(&mut buffer, sample(t2, 7, Carrier::L1, ObservableKind::PseudoRange, 20000010.0))
        .expect("boundary");
    assert_eq!(batch.candidates.len(), 1);
    let observations = &batch.candidates[0].observations;
    assert_eq!(observations.len(), 2);
    assert_eq!(observations[0].carrier, RtkCarrier::L1);
    assert_eq!(observations[0].pseudo_range_bits, Some(20000001.0f64.to_bits()));
    assert_eq!(observations[0].phase_range_bits, Some(105000000.5f64.to_bits()));
    assert_eq!(observations[0].doppler_bits, None);
    assert_eq!(observations[1].carrier, RtkCarrier::L2);
    assert_eq!(observations[1].doppler_bits, Some((-1200.25f64).to_bits()));
}

/// An unrecognized band sample is discarded alone: a diagnostic case, not an
/// abort; the rest of the timestamp's samples are processed normally.
#[test]
fn unrecognized_band_is_discarded() {
    let t1: u64 = 10 * HOUR_NS;
    let t2: u64 = t1 + HOUR_NS;
    let mut buffer = EphemerisBuffer::new(vec![wide_open_frame(7)]);
    let mut aggregator = ObservationAggregator::new();

    let odd = aggregator.process(&mut buffer, sample(t1, 7, Carrier::S, ObservableKind::PseudoRange, 1.0));
    assert!(odd.is_none());
    aggregator.process(&mut buffer, sample(t1, 7, Carrier::L1, ObservableKind::PseudoRange, 20000000.0));

    let batch = aggregator
        .process(&mut buffer, sample(t2, 7, Carrier::L1, ObservableKind::PseudoRange, 20000010.0))
        .expect("boundary");
    assert_eq!(batch.candidates.len(), 1);
    assert_eq!(batch.candidates[0].observations.len(), 1);
    assert_eq!(batch.candidates[0].observations[0].pseudo_range_bits, Some(20000000.0f64.to_bits()));
}

/// Over a whole stream, the number of solver invocations is the number of
/// distinct timestamps minus the final, unflushed one; a failed epoch
/// contributes no entry to the result map and the run continues.
#[test]
fn run_counts_and_failed_epochs() {
    let t1: u64 = 10 * HOUR_NS;
    let t2: u64 = t1 + HOUR_NS;
    let t3: u64 = t1 + 2 * HOUR_NS;
    let t4: u64 = t1 + 3 * HOUR_NS;
    let mut buffer = EphemerisBuffer::new(vec![wide_open_frame(7)]);
    let samples = vec![
        sample(t1, 7, Carrier::L1, ObservableKind::PseudoRange, 20000000.0),
        sample(t2, 7, Carrier::L1, ObservableKind::PseudoRange, 20000004.0),
        sample(t3, 7, Carrier::L1, ObservableKind::PseudoRange, 20000008.0),
        sample(t4, 7, Carrier::L1, ObservableKind::PseudoRange, 20000012.0),
    ];
    // The solver succeeds on t1 and t3 and fails on t2.
    let outcomes = vec![Some(11u32), None, Some(13u32)];
    let (batches, solutions) = resolve(&mut buffer, &samples, &outcomes);

    // Four distinct timestamps, the final one unflushed: three invocations.
    assert_eq!(batches.len(), 3);
    assert_eq!(batches[0].epoch_ns, t1);
    assert_eq!(batches[1].epoch_ns, t2);
    assert_eq!(batches[2].epoch_ns, t3);

    // No entry for the failed t2.
    assert_eq!(solutions.len(), 2);
    assert_eq!(solutions.get(0), (t1, 11));
    assert_eq!(solutions.get(1), (t3, 13));
}

/// A timestamp carried only by unrecognized samples never becomes
/// "previous": it closes no batch and is counted by no solver invocation.
#[test]
fn unrecognized_only_timestamp_counts_nothing() {
    let t1: u64 = 10 * HOUR_NS;
    let t2: u64 = t1 + HOUR_NS;
    let t3: u64 = t1 + 2 * HOUR_NS;
    let mut buffer = EphemerisBuffer::new(vec![wide_open_frame(7)]);
    let samples = vec![
        sample(t1, 7, Carrier::L1, ObservableKind::PseudoRange, 20000000.0),
        sample(t2, 7, Carrier::S, ObservableKind::PseudoRange, 1.0),
        sample(t3, 7, Carrier::L1, ObservableKind::PseudoRange, 20000008.0),
    ];
    let (batches, solutions) = resolve(&mut buffer, &samples, &vec![Some(5)]);
    // Two distinct recognized timestamps, the final one unflushed: one
    // invocation, for t1; the unrecognized-only t2 contributes none.
    assert_eq!(batches.len(), 1);
    assert_eq!(batches[0].epoch_ns, t1);
    assert_eq!(solutions.len(), 1);
    assert_eq!(solutions.get(0), (t1, 5));
}

/// Repeated timestamps do not close a batch: only a strictly newer one does.
#[test]
fn equal_timestamps_stay_open() {
    let t1: u64 = 10 * HOUR_NS;
    let mut buffer = EphemerisBuffer::new(vec![wide_open_frame(7)]);
    let samples = vec![
        sample(t1, 7, Carrier::L1, ObservableKind::PseudoRange, 20000000.0),
        sample(t1, 8, Carrier::L1, ObservableKind::PseudoRange, 21000000.0),
        sample(t1, 7, Carrier::L2, ObservableKind::PseudoRange, 20000001.0),
    ];
    let (batches, solutions) = resolve(&mut buffer, &samples, &vec![]);
    assert_eq!(batches.len(), 0);
    assert_eq!(solutions.len(), 0);
}

/// A batch covers every satellite observed at its timestamp.
#[test]
fn batch_has_one_candidate_per_satellite() {
    let t1: u64 = 10 * HOUR_NS;
    let t2: u64 = t1 + HOUR_NS;
    let mut buffer = EphemerisBuffer::new(vec![wide_open_frame(7)]);
    let samples = vec![
        sample(t1, 7, Carrier::L1, ObservableKind::PseudoRange, 20000000.0),
        sample(t1, 8, Carrier::E1, ObservableKind::PseudoRange, 21000000.0),
        sample(t2, 7, Carrier::L1, ObservableKind::PseudoRange, 20000010.0),
    ];
    let (batches, _) = resolve(&mut buffer, &samples, &vec![Some(1)]);
    assert_eq!(batches.len(), 1);
    assert_eq!(batches[0].candidates.len(), 2);
    assert_eq!(batches[0].candidates[0].sv, sat(7));
    assert_eq!(batches[0].candidates[1].sv, sat(8));
    // The Galileo E1 band is handed to the solver as its L1 equivalent.
    assert_eq!(batches[0].candidates[1].observations[0].carrier, RtkCarrier::L1);
}

/// A run with no solved epoch reports the distinct "no solutions" condition;
/// a solved epoch makes it a success.
#[test]
fn run_outcome_classification() {
    let empty = Solutions::new();
    assert_eq!(positioning_outcome(empty), Err(Error::NoSolutions));

    let mut some = Solutions::new();
    some.record(42, Some(7));
    let ok = positioning_outcome(some).expect("a solved epoch");
    assert_eq!(ok.len(), 1);
    assert_eq!(ok.get(0), (42, 7));
}

/// The band classification: every solver carrier casts back and forth, and
/// the unsupported bands are reported, not fatal.
#[test]
fn carrier_classification() {
    assert_eq!(cast_rtk_carrier(Carrier::L1), Ok(RtkCarrier::L1));
    assert_eq!(cast_rtk_carrier(Carrier::E1), Ok(RtkCarrier::L1));
    assert_eq!(cast_rtk_carrier(Carrier::L5), Ok(RtkCarrier::L5));
    assert_eq!(cast_rtk_carrier(Carrier::E5a), Ok(RtkCarrier::L5));
    assert_eq!(cast_rtk_carrier(Carrier::S), Err(CarrierError::UnknownCarrierFrequency));
    assert_eq!(cast_rtk_carrier(Carrier::G1), Err(CarrierError::UnknownCarrierFrequency));

    for rtk in [
        RtkCarrier::L1,
        RtkCarrier::L2,
        RtkCarrier::L5,
        RtkCarrier::E5b,
        RtkCarrier::E5a5b,
        RtkCarrier::B1,
        RtkCarrier::B3,
    ] {
        assert_eq!(cast_rtk_carrier(rtk_carrier_cast(rtk)), Ok(rtk));
    }
}
