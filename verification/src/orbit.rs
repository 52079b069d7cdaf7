//! Orbital state resolution from buffered navigation models.
//!
//! [`Orbits`] answers "satellite state at this instant" queries by selecting
//! the best buffered model and classifying the outcome of the external
//! Kepler-to-Cartesian transform, distinguishing a missing model from a
//! failed transform. Either failure degrades the query to an absence; the
//! solver then excludes the satellite from that epoch's fix.

use vstd::prelude::*;

use crate::biases::has_valid_model;
use crate::ephemeris::{EphemerisBuffer, SatelliteId};

verus! {

/// A handle to the orbital state computed by the surrounding application
/// for a selected model.
pub type OrbitHandle = u32;

/// Why no orbital state could be resolved.
#[derive(Clone, Copy, Debug, PartialEq, Eq, Structural)]
pub enum OrbitError {
    /// No buffered navigation model was valid for the query.
    NoEphemeris,
    /// A model was available but the Kepler solver failed on it.
    KeplerFailed,
}

/// Resolves satellite orbital states from buffered navigation models via
/// the external Kepler-to-Cartesian transform.
pub struct Orbits {}

impl Orbits {
    pub fn new() -> Self {
        Orbits {  }
    }

    /// Classifies an orbital state query at `now_ns`: reports the state
    /// when a model was selected and the transform, supplied by the caller
    /// as `kepler_solution`, succeeded on it; otherwise tells a missing
    /// model apart from a failed transform. Both failures are surfaced as
    /// results, never raised.
    pub fn state_at(
        &self,
        buffer: &EphemerisBuffer,
        now_ns: u64,
        sv: SatelliteId,
        kepler_solution: Option<OrbitHandle>,
    ) -> (r: Result<OrbitHandle, OrbitError>)
        ensures
            !has_valid_model(*buffer, now_ns, sv) ==> r == Err::<OrbitHandle, OrbitError>(
                OrbitError::NoEphemeris,
            ),
            has_valid_model(*buffer, now_ns, sv) ==> r == match kepler_solution {
                Some(handle) => Ok::<OrbitHandle, OrbitError>(handle),
                None => Err::<OrbitHandle, OrbitError>(OrbitError::KeplerFailed),
            },
    {
        match buffer.select_sv_ephemeris(now_ns, sv) {
            Some(_) => match kepler_solution {
                Some(handle) => Ok(handle),
                None => Err(OrbitError::KeplerFailed),
            },
            None => {
                proof {
                    if has_valid_model(*buffer, now_ns, sv) {
                        let j = choose|j: int|
                            0 <= j < buffer.buffered().len() && (#[trigger] buffer.buffered()[j]).sv
                                == sv && buffer.buffered()[j].is_valid_spec(now_ns);
                        assert(buffer.buffered()[j].is_valid_spec(now_ns));
                    }
                }
                Err(OrbitError::NoEphemeris)
            },
        }
    }
}

} // verus!
