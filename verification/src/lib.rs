//! Streaming aggregation core for post-processed satellite navigation.
//!
//! The crate turns ordered streams of navigation models and signal
//! observations into time-synchronized, per-satellite candidate batches for a
//! positioning solver, and resolves ephemeris selection, bias defaults and
//! time-scale corrections on demand.

use vstd::prelude::*;

pub mod biases;
pub mod ephemeris;
pub mod orbit;
pub mod ppp;
pub mod rtk;
pub mod time;

verus! {

/// A carrier frequency band as labelled in the raw observation stream.
#[derive(Clone, Copy, Debug, PartialEq, Eq, Structural)]
pub enum Carrier {
    L1,
    L2,
    L5,
    L6,
    E1,
    E5a,
    E5b,
    E5a5b,
    E6,
    B1,
    B2,
    B3,
    G1,
    G2,
    S,
}

/// A carrier band the downstream solver accepts.
#[derive(Clone, Copy, Debug, PartialEq, Eq, Structural)]
pub enum RtkCarrier {
    L1,
    L2,
    L5,
    E5b,
    E5a5b,
    B1,
    B3,
}

/// Why a raw carrier band could not be handed to the solver.
#[derive(Clone, Copy, Debug, PartialEq, Eq, Structural)]
pub enum CarrierError {
    UnknownCarrierFrequency,
}

/// The back-cast of a solver carrier: the same-named raw stream band.
pub open spec fn rtk_carrier_cast_spec(carrier: RtkCarrier) -> Carrier {
    match carrier {
        RtkCarrier::B1 => Carrier::B1,
        RtkCarrier::B3 => Carrier::B3,
        RtkCarrier::E5a5b => Carrier::E5a5b,
        RtkCarrier::L1 => Carrier::L1,
        RtkCarrier::E5b => Carrier::E5b,
        RtkCarrier::L5 => Carrier::L5,
        RtkCarrier::L2 => Carrier::L2,
    }
}

/// Converts a solver carrier back to the same-named raw stream band, which
/// in turn classifies back to the input.
pub fn rtk_carrier_cast(carrier: RtkCarrier) -> (r: Carrier)
    ensures
        r == rtk_carrier_cast_spec(carrier),
        cast_rtk_carrier_spec(r) == Ok::<RtkCarrier, CarrierError>(carrier),
{
    match carrier {
        RtkCarrier::B1 => Carrier::B1,
        RtkCarrier::B3 => Carrier::B3,
        RtkCarrier::E5a5b => Carrier::E5a5b,
        RtkCarrier::L1 => Carrier::L1,
        RtkCarrier::E5b => Carrier::E5b,
        RtkCarrier::L5 => Carrier::L5,
        RtkCarrier::L2 => Carrier::L2,
    }
}

/// The band classification applied to every incoming sample: which solver
/// carrier a raw band maps to, or an error for the bands the solver does not
/// support.
pub open spec fn cast_rtk_carrier_spec(carrier: Carrier) -> Result<RtkCarrier, CarrierError> {
    match carrier {
        Carrier::B1 => Ok(RtkCarrier::B1),
        Carrier::B3 => Ok(RtkCarrier::B3),
        Carrier::E5a5b => Ok(RtkCarrier::E5a5b),
        Carrier::L2 => Ok(RtkCarrier::L2),
        Carrier::L5 => Ok(RtkCarrier::L5),
        Carrier::E5a => Ok(RtkCarrier::L5),
        Carrier::L1 => Ok(RtkCarrier::L1),
        Carrier::E1 => Ok(RtkCarrier::L1),
        Carrier::E5b => Ok(RtkCarrier::E5b),
        _ => Err(CarrierError::UnknownCarrierFrequency),
    }
}

/// Classifies a raw carrier band; unsupported bands are reported, not fatal.
pub fn cast_rtk_carrier(carrier: Carrier) -> (r: Result<RtkCarrier, CarrierError>)
    ensures
        r == cast_rtk_carrier_spec(carrier),
{
    match carrier {
        Carrier::B1 => Ok(RtkCarrier::B1),
        Carrier::B3 => Ok(RtkCarrier::B3),
        Carrier::E5a5b => Ok(RtkCarrier::E5a5b),
        Carrier::L2 => Ok(RtkCarrier::L2),
        Carrier::L5 | Carrier::E5a => Ok(RtkCarrier::L5),
        Carrier::L1 | Carrier::E1 => Ok(RtkCarrier::L1),
        Carrier::E5b => Ok(RtkCarrier::E5b),
        _ => Err(CarrierError::UnknownCarrierFrequency),
    }
}

/// A run-level failure of the positioning pipeline.
#[derive(Clone, Copy, Debug, PartialEq, Eq, Structural)]
pub enum Error {
    /// The solver produced no solution at any epoch: the run worked but
    /// found nothing, as opposed to crashing.
    NoSolutions,
}

/// Classifies the end of a run: a run whose result map is empty reports the
/// distinct "no solutions" condition; any solved epoch makes the run a
/// success carrying its result map.
pub fn positioning_outcome(solutions: ppp::Solutions) -> (r: Result<ppp::Solutions, Error>)
    ensures
        match r {
            Ok(s) => s == solutions && solutions.entries_view().len() > 0,
            Err(e) => e == Error::NoSolutions && solutions.entries_view().len() == 0,
        },
{
    if solutions.is_empty() {
        Err(Error::NoSolutions)
    } else {
        Ok(solutions)
    }
}

} // verus!
