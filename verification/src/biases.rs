//! Bias adapters: satellite clock correction, group delay and environmental
//! delays derived from the ephemeris buffer.
//!
//! Every adapter is a pure query that always answers: where data is missing
//! it degrades to a defined zero value instead of failing, so the solver
//! never stalls on an absent bias.

use vstd::prelude::*;

use crate::ephemeris::{EphemerisBuffer, SatelliteId};

verus! {

/// A satellite clock correction handed to the solver, in nanoseconds, with a
/// flag telling whether the relativistic term is still owed. This adapter
/// layer never applies the relativistic term: that is explicitly the
/// solver's responsibility.
#[derive(Clone, Copy, Debug, PartialEq, Eq, Structural)]
pub struct SatelliteClockCorrection {
    /// The clock correction, nanoseconds.
    pub correction_ns: i64,
    /// True when the relativistic effect has not been corrected yet.
    pub needs_relativistic_correction: bool,
}

impl SatelliteClockCorrection {
    /// The defined zero correction, returned whenever no data is available.
    pub open spec fn zero_spec() -> SatelliteClockCorrection {
        SatelliteClockCorrection { correction_ns: 0, needs_relativistic_correction: false }
    }

    /// A correction whose relativistic term is still owed to the solver.
    pub open spec fn without_relativistic_spec(correction_ns: i64) -> SatelliteClockCorrection {
        SatelliteClockCorrection { correction_ns, needs_relativistic_correction: true }
    }
}

/// Whether some buffered model is valid for `sv` at `now_ns`.
pub open spec fn has_valid_model(buffer: EphemerisBuffer, now_ns: u64, sv: SatelliteId) -> bool {
    &&& sv.constellation.is_supported_spec()
    &&& exists|j: int|
        0 <= j < buffer.buffered().len() && (#[trigger] buffer.buffered()[j]).sv == sv
            && buffer.buffered()[j].is_valid_spec(now_ns)
}

/// Space-borne biases: clock correction, group delay and the unsupported
/// wide-lane term.
pub struct SpacebornBiases {}

impl SpacebornBiases {
    pub fn new() -> Self {
        SpacebornBiases {  }
    }

    /// The satellite clock correction at `now_ns`: the evaluation of the
    /// selected model's clock polynomial, without relativistic correction,
    /// supplied by the caller as `evaluation_ns`; the defined zero when no
    /// model is buffered or the evaluation was not obtained. Never fails.
    pub fn clock_bias(
        &self,
        buffer: &EphemerisBuffer,
        now_ns: u64,
        sv: SatelliteId,
        evaluation_ns: Option<i64>,
    ) -> (r: SatelliteClockCorrection)
        ensures
            !has_valid_model(*buffer, now_ns, sv) ==> r == SatelliteClockCorrection::zero_spec(),
            has_valid_model(*buffer, now_ns, sv) ==> r == match evaluation_ns {
                Some(v) => SatelliteClockCorrection::without_relativistic_spec(v),
                None => SatelliteClockCorrection::zero_spec(),
            },
    {
        match buffer.select_sv_ephemeris(now_ns, sv) {
            Some(_) => match evaluation_ns {
                Some(v) => SatelliteClockCorrection {
                    correction_ns: v,
                    needs_relativistic_correction: true,
                },
                None => SatelliteClockCorrection {
                    correction_ns: 0,
                    needs_relativistic_correction: false,
                },
            },
            None => {
                proof {
                    if has_valid_model(*buffer, now_ns, sv) {
                        let j = choose|j: int|
                            0 <= j < buffer.buffered().len() && (#[trigger] buffer.buffered()[j]).sv
                                == sv && buffer.buffered()[j].is_valid_spec(now_ns);
                        assert(buffer.buffered()[j].is_valid_spec(now_ns));
                    }
                }
                SatelliteClockCorrection { correction_ns: 0, needs_relativistic_correction: false }
            },
        }
    }

    /// The broadcast group delay of the selected model, nanoseconds; zero
    /// duration when no model is buffered or the model carries none. Never
    /// fails.
    pub fn group_delay(&self, buffer: &EphemerisBuffer, now_ns: u64, sv: SatelliteId) -> (r: i64)
        ensures
            !has_valid_model(*buffer, now_ns, sv) ==> r == 0,
            has_valid_model(*buffer, now_ns, sv) ==> exists|j: int|
                {
                    &&& 0 <= j < buffer.buffered().len()
                    &&& (#[trigger] buffer.buffered()[j]).sv == sv
                    &&& buffer.buffered()[j].is_valid_spec(now_ns)
                    &&& forall|k: int|
                        0 <= k < buffer.buffered().len() && (#[trigger] buffer.buffered()[k]).sv
                            == sv && buffer.buffered()[k].is_valid_spec(now_ns)
                            ==> buffer.buffered()[j].toe_delta(now_ns)
                            <= buffer.buffered()[k].toe_delta(now_ns)
                    &&& r == match buffer.buffered()[j].tgd_ns {
                        Some(tgd) => tgd,
                        None => 0i64,
                    }
                },
    {
        match buffer.select_sv_ephemeris(now_ns, sv) {
            Some(frame) => {
                let r = match frame.tgd_ns {
                    Some(tgd) => tgd,
                    None => 0,
                };
                proof {
                    let j = choose|j: int|
                        0 <= j < buffer.buffered().len() && buffer.buffered()[j] == frame;
                    assert((#[trigger] buffer.buffered()[j]).sv == sv);
                }
                r
            },
            None => {
                proof {
                    if has_valid_model(*buffer, now_ns, sv) {
                        let j = choose|j: int|
                            0 <= j < buffer.buffered().len() && (#[trigger] buffer.buffered()[j]).sv
                                == sv && buffer.buffered()[j].is_valid_spec(now_ns);
                        assert(buffer.buffered()[j].is_valid_spec(now_ns));
                    }
                }
                0
            },
        }
    }

    /// The Melbourne-Wubbena bias is not supplied: always zero, a documented
    /// limitation, not a failure.
    pub fn mw_bias(&self) -> (r: i64)
        ensures
            r == 0,
    {
        0
    }
}

/// Environmental biases. The tropospheric delay itself is a floating-point
/// model evaluated by the surrounding application; what this layer owns is
/// the ionospheric default.
pub struct EnvironmentalBiases {}

impl EnvironmentalBiases {
    pub fn new() -> Self {
        EnvironmentalBiases {  }
    }

    /// The ionospheric delay is not modelled in this configuration: always
    /// the defined zero, in millimeters. Never fails.
    pub fn ionosphere_bias_mm(&self) -> (r: i64)
        ensures
            r == 0,
    {
        0
    }
}

} // verus!
