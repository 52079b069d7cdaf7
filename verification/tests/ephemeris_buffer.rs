use rinex_cli::ephemeris::{
    Constellation, EphemerisBuffer, EphemerisFrame, NullEphemerisSource, SatelliteId,
};

const HOUR_NS: u64 = 3_600_000_000_000;

fn sat(prn: u8) -> SatelliteId {
    SatelliteId { constellation: Constellation::Gps, prn }
}

fn frame(prn: u8, toc: u64, toe: u64, from: u64, until: u64, tgd: Option<i64>) -> EphemerisFrame {
    EphemerisFrame {
        sv: sat(prn),
        toc_ns: toc,
        toe_ns: toe,
        valid_from_ns: from,
        valid_until_ns: until,
        tgd_ns: tgd,
        payload: prn as u32,
    }
}

/// A model valid on [t0, t0 + 2h] answers a query at t0 + 1h and is expired
/// at t0 + 3h.
#[test]
fn select_within_and_after_validity_window() {
    let t0: u64 = 100 * HOUR_NS;
    let model = frame(1, t0, t0 + HOUR_NS, t0, t0 + 2 * HOUR_NS, None);
    let mut buffer = EphemerisBuffer::new(vec![model]);

    buffer.new_epoch(t0 + HOUR_NS);
    let selected = buffer.select_sv_ephemeris(t0 + HOUR_NS, sat(1));
    assert_eq!(selected, Some(model));

    buffer.new_epoch(t0 + 3 * HOUR_NS);
    let selected = buffer.select_sv_ephemeris(t0 + 3 * HOUR_NS, sat(1));
    assert_eq!(selected, None);
}

/// The freshest valid model wins: nearest orbit reference epoch to the query.
#[test]
fn select_nearest_toe() {
    let t0: u64 = 100 * HOUR_NS;
    let older = frame(1, t0, t0 + HOUR_NS, t0, t0 + 8 * HOUR_NS, None);
    let newer = frame(1, t0 + 4 * HOUR_NS, t0 + 5 * HOUR_NS, t0, t0 + 8 * HOUR_NS, None);
    let mut buffer = EphemerisBuffer::new(vec![older, newer]);

    let query = t0 + 5 * HOUR_NS;
    buffer.new_epoch(query);
    assert_eq!(buffer.select_sv_ephemeris(query, sat(1)), Some(newer));

    let early_query = t0 + HOUR_NS;
    let mut buffer = EphemerisBuffer::new(vec![older, newer]);
    buffer.new_epoch(early_query);
    assert_eq!(buffer.select_sv_ephemeris(early_query, sat(1)), Some(older));
}

/// Advancing twice with the same time leaves the buffer exactly as one call
/// left it.
#[test]
fn advance_is_idempotent() {
    let t0: u64 = 10 * HOUR_NS;
    let source = vec![
        frame(1, t0, t0, t0, t0 + 2 * HOUR_NS, None),
        frame(2, t0, t0 + HOUR_NS, t0, t0 + 3 * HOUR_NS, None),
        frame(1, t0 + 4 * HOUR_NS, t0 + 5 * HOUR_NS, t0 + 4 * HOUR_NS, t0 + 7 * HOUR_NS, None),
    ];
    let mut once = EphemerisBuffer::new(source.clone());
    once.new_epoch(t0 + HOUR_NS);
    let mut twice = EphemerisBuffer::new(source);
    twice.new_epoch(t0 + HOUR_NS);
    twice.new_epoch(t0 + HOUR_NS);

    assert_eq!(once.buffered_len(), twice.buffered_len());
    for i in 0..once.buffered_len() {
        assert_eq!(once.buffered_get(i), twice.buffered_get(i));
    }
}

/// The look-ahead stop keeps the buffer bounded: a model entirely in the
/// future ends the pull, and later models stay unpulled until needed.
#[test]
fn look_ahead_stop_bounds_the_buffer() {
    let t0: u64 = 10 * HOUR_NS;
    let source = vec![
        frame(1, t0, t0, t0, t0 + 2 * HOUR_NS, None),
        frame(1, t0 + 5 * HOUR_NS, t0 + 6 * HOUR_NS, t0 + 5 * HOUR_NS, t0 + 8 * HOUR_NS, None),
        frame(1, t0 + 9 * HOUR_NS, t0 + 10 * HOUR_NS, t0 + 9 * HOUR_NS, t0 + 12 * HOUR_NS, None),
    ];
    let mut buffer = EphemerisBuffer::new(source);
    buffer.new_epoch(t0 + HOUR_NS);
    // The first model is valid, the second is the future stop frame, the
    // third was never pulled.
    assert_eq!(buffer.buffered_len(), 2);
}

/// Retirement discards models that are both stale and invalid, one advance
/// behind the clock: a model that could still serve the pending epoch
/// survives the advance that moves past it, and is dropped by the next one.
#[test]
fn stale_models_are_retired() {
    let t0: u64 = 10 * HOUR_NS;
    let expired = frame(1, t0, t0 + HOUR_NS, t0, t0 + 2 * HOUR_NS, None);
    let current = frame(1, t0 + 3 * HOUR_NS, t0 + 4 * HOUR_NS, t0 + 3 * HOUR_NS, t0 + 6 * HOUR_NS, None);
    let mut buffer = EphemerisBuffer::new(vec![expired, current]);
    buffer.new_epoch(t0 + HOUR_NS);
    // The first model expired by now, but the epoch whose batch is pending
    // may still need it: the advance retires against its predecessor's time.
    buffer.new_epoch(t0 + 5 * HOUR_NS);
    assert_eq!(buffer.buffered_len(), 2);
    // The next advance retires against t0 + 5h, where the first model is
    // both stale and invalid.
    buffer.new_epoch(t0 + 6 * HOUR_NS);
    assert_eq!(buffer.buffered_len(), 1);
    assert_eq!(buffer.buffered_get(0), current);
}

/// Geostationary augmentation satellites are not supported: their queries
/// answer "not found" even when a model is buffered.
#[test]
fn unsupported_constellation_selects_nothing() {
    let t0: u64 = 10 * HOUR_NS;
    let sbas = SatelliteId { constellation: Constellation::Sbas, prn: 23 };
    let model = EphemerisFrame {
        sv: sbas,
        toc_ns: t0,
        toe_ns: t0,
        valid_from_ns: t0,
        valid_until_ns: t0 + 4 * HOUR_NS,
        tgd_ns: None,
        payload: 0,
    };
    let mut buffer = EphemerisBuffer::new(vec![model]);
    buffer.new_epoch(t0 + HOUR_NS);
    assert_eq!(buffer.select_sv_ephemeris(t0 + HOUR_NS, sbas), None);
}

/// Completeness: once advanced, every satellite with a valid upstream model
/// is served.
#[test]
fn advance_serves_every_satellite_with_a_valid_model() {
    let t0: u64 = 10 * HOUR_NS;
    let source = vec![
        frame(1, t0, t0 + HOUR_NS, t0, t0 + 4 * HOUR_NS, None),
        frame(2, t0 + HOUR_NS, t0 + 2 * HOUR_NS, t0 + HOUR_NS, t0 + 5 * HOUR_NS, None),
        frame(3, t0 + 2 * HOUR_NS, t0 + 3 * HOUR_NS, t0 + 2 * HOUR_NS, t0 + 6 * HOUR_NS, None),
    ];
    let mut buffer = EphemerisBuffer::new(source);
    let now = t0 + 2 * HOUR_NS + 1;
    buffer.new_epoch(now);
    for prn in 1..=3u8 {
        let selected = buffer
            .select_sv_ephemeris(now, sat(prn))
            .expect("each satellite has a valid model upstream");
        assert_eq!(selected.sv, sat(prn));
        assert!(selected.valid_from_ns <= now && now <= selected.valid_until_ns);
    }
}

/// The null source answers every query empty-handed.
#[test]
fn null_source_yields_nothing() {
    let source = NullEphemerisSource::new();
    assert_eq!(source.ephemeris_data(0, sat(1)), None);
}
