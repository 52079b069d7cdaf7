use rinex_cli::biases::{EnvironmentalBiases, SatelliteClockCorrection, SpacebornBiases};
use rinex_cli::ephemeris::{Constellation, EphemerisBuffer, EphemerisFrame, SatelliteId};
use rinex_cli::orbit::{OrbitError, Orbits};
use rinex_cli::ppp::{Candidate, ObservableKind, SignalObservation};
use rinex_cli::rtk::RTKBaseStation;
use rinex_cli::time::{Time, TimeCorrection, TimeScale, WEEK_NS};
use rinex_cli::Carrier;

const HOUR_NS: u64 = 3_600_000_000_000;

fn sat(prn: u8) -> SatelliteId {
    SatelliteId { constellation: Constellation::Gps, prn }
}

fn frame(prn: u8, toe: u64, from: u64, until: u64, tgd: Option<i64>) -> EphemerisFrame {
    EphemerisFrame {
        sv: sat(prn),
        toc_ns: from,
        toe_ns: toe,
        valid_from_ns: from,
        valid_until_ns: until,
        tgd_ns: tgd,
        payload: 0,
    }
}

/// Without a database the service always answers with the generic
/// conversion, which is the identity on the same scale.
#[test]
fn generic_fallback_without_database() {
    let time = Time::new(None);
    let t: u64 = 1_234_567_890_123_456;
    assert_eq!(time.epoch_correction(t, TimeScale::Gpst, TimeScale::Gpst), t);
    assert_eq!(time.epoch_correction(t, TimeScale::Tai, TimeScale::Tai), t);
}

/// The generic conversion really converts: a GPST epoch expressed in TAI
/// moves by the scales' fixed offset, exactly as the underlying time library
/// computes it.
#[test]
fn generic_conversion_crosses_scales() {
    let time = Time::new(None);
    let t: u64 = 1_000_000_000_000_000_000;
    let converted = time.epoch_correction(t, TimeScale::Gpst, TimeScale::Tai);
    assert_ne!(converted, t);

    let epoch = hifitime::Epoch::from_duration(
        hifitime::Duration::from_total_nanoseconds(t as i128),
        hifitime::TimeScale::GPST,
    );
    let expected = epoch
        .to_duration_in_time_scale(hifitime::TimeScale::TAI)
        .total_nanoseconds() as u64;
    assert_eq!(converted, expected);
}

/// A precise correction covering the query wins over the generic
/// conversion, and the correction nearest to the query time is the one
/// applied.
#[test]
fn precise_correction_applies() {
    let t: u64 = 10 * WEEK_NS;
    let far = TimeCorrection {
        from_scale: TimeScale::Gpst,
        to_scale: TimeScale::Utc,
        ref_epoch_ns: t - HOUR_NS,
        offset_ns: 500,
    };
    let near = TimeCorrection {
        from_scale: TimeScale::Gpst,
        to_scale: TimeScale::Utc,
        ref_epoch_ns: t + 1,
        offset_ns: 300,
    };
    let other_pair = TimeCorrection {
        from_scale: TimeScale::Gpst,
        to_scale: TimeScale::Tai,
        ref_epoch_ns: t,
        offset_ns: 999,
    };
    let time = Time::new(Some(vec![far, near, other_pair]));
    assert_eq!(time.epoch_correction(t, TimeScale::Gpst, TimeScale::Utc), t + 300);
}

/// Advancing the service expires corrections that left the weekly window,
/// and never changes the mode.
#[test]
fn corrections_expire_weekly() {
    let now: u64 = 10 * WEEK_NS;
    let stale = TimeCorrection {
        from_scale: TimeScale::Gpst,
        to_scale: TimeScale::Utc,
        ref_epoch_ns: now - 2 * WEEK_NS,
        offset_ns: 500,
    };
    let fresh = TimeCorrection {
        from_scale: TimeScale::Gpst,
        to_scale: TimeScale::Utc,
        ref_epoch_ns: now - WEEK_NS / 2,
        offset_ns: 300,
    };
    let mut time = Time::new(Some(vec![stale, fresh]));
    time.new_epoch(now);
    // Only the fresh correction is left to answer.
    assert_eq!(time.epoch_correction(now, TimeScale::Gpst, TimeScale::Utc), now + 300);

    let mut no_db = Time::new(None);
    no_db.new_epoch(now);
    let t: u64 = 42;
    assert_eq!(no_db.epoch_correction(t, TimeScale::Utc, TimeScale::Utc), t);
}

/// Bias adapters never fail: with no buffered model every query returns the
/// defined zero value.
#[test]
fn biases_degrade_to_zero() {
    let buffer = EphemerisBuffer::new(vec![]);
    let space = SpacebornBiases::new();
    let now = 5 * HOUR_NS;

    let clock = space.clock_bias(&buffer, now, sat(1), Some(777));
    assert_eq!(
        clock,
        SatelliteClockCorrection { correction_ns: 0, needs_relativistic_correction: false }
    );
    assert_eq!(space.group_delay(&buffer, now, sat(1)), 0);
    assert_eq!(space.mw_bias(), 0);

    let environment = EnvironmentalBiases::new();
    assert_eq!(environment.ionosphere_bias_mm(), 0);
}

/// With a model buffered, the clock bias carries the caller's polynomial
/// evaluation without relativistic correction, and the group delay is the
/// model's broadcast term.
#[test]
fn biases_read_the_selected_model() {
    let now = 5 * HOUR_NS;
    let model = frame(1, now, 0, 10 * HOUR_NS, Some(4242));
    let mut buffer = EphemerisBuffer::new(vec![model]);
    buffer.new_epoch(now);
    let space = SpacebornBiases::new();

    let clock = space.clock_bias(&buffer, now, sat(1), Some(777));
    assert_eq!(
        clock,
        SatelliteClockCorrection { correction_ns: 777, needs_relativistic_correction: true }
    );
    let fallback = space.clock_bias(&buffer, now, sat(1), None);
    assert_eq!(
        fallback,
        SatelliteClockCorrection { correction_ns: 0, needs_relativistic_correction: false }
    );
    assert_eq!(space.group_delay(&buffer, now, sat(1)), 4242);

    let bare = frame(2, now, 0, 10 * HOUR_NS, None);
    let mut buffer = EphemerisBuffer::new(vec![bare]);
    buffer.new_epoch(now);
    assert_eq!(space.group_delay(&buffer, now, sat(2)), 0);
}

/// Orbit resolution tells a missing model apart from a failed transform,
/// and reports the state when both steps work.
#[test]
fn orbit_state_classification() {
    let now = 5 * HOUR_NS;
    let orbits = Orbits::new();

    let empty = EphemerisBuffer::new(vec![]);
    assert_eq!(orbits.state_at(&empty, now, sat(1), Some(3)), Err(OrbitError::NoEphemeris));

    let mut buffer = EphemerisBuffer::new(vec![frame(1, now, 0, 10 * HOUR_NS, None)]);
    buffer.new_epoch(now);
    assert_eq!(orbits.state_at(&buffer, now, sat(1), None), Err(OrbitError::KeplerFailed));
    assert_eq!(orbits.state_at(&buffer, now, sat(1), Some(3)), Ok(3));
}

/// The base station pulls its stream up to the first sample past the
/// requested epoch, exposes its fixed metadata, and answers epoch queries
/// with the buffered samples of exactly that epoch, grouped per satellite.
#[test]
fn base_station_buffers_by_epoch() {
    let t1 = HOUR_NS;
    let t2 = 2 * HOUR_NS;
    let t3 = 3 * HOUR_NS;
    let obs = |epoch: u64, prn: u8, kind: ObservableKind, value: f64| SignalObservation {
        epoch_ns: epoch,
        sv: sat(prn),
        carrier: Carrier::L1,
        kind,
        value_bits: value.to_bits(),
    };
    let mut station = RTKBaseStation::new(
        "Base".to_string(),
        (4_027_881_000, 306_998_000, 4_919_499_000),
        vec![
            obs(t1, 3, ObservableKind::PseudoRange, 21000000.0),
            obs(t1, 3, ObservableKind::PhaseRange, 110000000.5),
            obs(t1, 4, ObservableKind::PseudoRange, 22000000.0),
            obs(t2, 3, ObservableKind::PseudoRange, 21000004.0),
            obs(t3, 3, ObservableKind::PseudoRange, 21000008.0),
        ],
    );
    assert_eq!(station.name(), "Base");
    assert_eq!(station.reference_position_ecef_mm(), (4_027_881_000, 306_998_000, 4_919_499_000));

    station.new_epoch(t1);
    // Both satellites observed at t1 are exposed; the phase sample shares
    // the pseudorange sample's band record.
    let observed: Vec<Candidate> = station.observe(t1);
    assert_eq!(observed.len(), 2);
    assert_eq!(observed[0].sv, sat(3));
    assert_eq!(observed[0].epoch_ns, t1);
    assert_eq!(observed[0].observations.len(), 1);
    assert_eq!(observed[0].observations[0].pseudo_range_bits, Some(21000000.0f64.to_bits()));
    assert_eq!(observed[0].observations[0].phase_range_bits, Some(110000000.5f64.to_bits()));
    assert_eq!(observed[1].sv, sat(4));

    // The stopping t2 sample was pulled along; a query for it answers it.
    let observed: Vec<Candidate> = station.observe(t2);
    assert_eq!(observed.len(), 1);
    assert_eq!(observed[0].observations[0].pseudo_range_bits, Some(21000004.0f64.to_bits()));

    // t3 was not pulled yet: nothing to answer.
    assert!(station.observe(t3).is_empty());
    station.new_epoch(t3);
    let observed: Vec<Candidate> = station.observe(t3);
    assert_eq!(observed.len(), 1);
    assert_eq!(observed[0].observations[0].pseudo_range_bits, Some(21000008.0f64.to_bits()));
}
