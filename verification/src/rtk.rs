//! Base station buffering for differential positioning.
//!
//! [`RTKBaseStation`] mirrors the pull/buffer/exhaustion pattern of the
//! ephemeris buffer over a second, base-station observation stream. Its
//! reference position is mandatory and fixed at construction: a base station
//! is meaningless without one, so its absence is a configuration error that
//! the surrounding application raises before this type is ever built.

use vstd::prelude::*;

use crate::cast_rtk_carrier_spec;
use crate::ephemeris::SatelliteId;
use crate::ppp::{
    build_candidates, merge_into, merge_sample, pairs_view, Candidate, Observation,
    ObservationAggregator, SignalObservation,
};

verus! {

/// What one buffered sample contributes to an epoch query: a sample of the
/// queried timestamp whose band is recognized merges into the accumulation,
/// any other contributes nothing.
pub open spec fn observe_step(
    accum: Seq<(SatelliteId, Seq<Observation>)>,
    sample: SignalObservation,
    epoch_ns: u64,
) -> Seq<(SatelliteId, Seq<Observation>)> {
    match cast_rtk_carrier_spec(sample.carrier) {
        Ok(band) => if sample.epoch_ns == epoch_ns {
            merge_into(accum, sample.sv, band, sample.kind, sample.value_bits)
        } else {
            accum
        },
        Err(_) => accum,
    }
}

/// The per-satellite observation sets that a buffered sample list yields
/// for one epoch, folding `observe_step` over the samples in buffer order.
pub open spec fn observed_accum(
    samples: Seq<SignalObservation>,
    epoch_ns: u64,
    accum: Seq<(SatelliteId, Seq<Observation>)>,
) -> Seq<(SatelliteId, Seq<Observation>)>
    decreases samples.len(),
{
    if samples.len() == 0 {
        accum
    } else {
        observed_accum(samples.drop_first(), epoch_ns, observe_step(accum, samples[0], epoch_ns))
    }
}

/// A buffered base-station observation stream with its fixed metadata.
pub struct RTKBaseStation {
    /// Name of this station.
    name: String,
    /// Mandatory antenna reference position, ECEF, millimeters.
    reference_position_mm: (i64, i64, i64),
    /// The upstream observation stream, in non-decreasing timestamp order.
    source: Vec<SignalObservation>,
    /// Next source entry that has not been pulled yet.
    cursor: usize,
    /// End of the upstream stream was reached.
    eos: bool,
    /// Samples pulled so far.
    buffer: Vec<SignalObservation>,
}

impl RTKBaseStation {
    /// The whole upstream stream, pulled or not.
    pub closed spec fn samples(self) -> Seq<SignalObservation> {
        self.source@
    }

    /// The samples pulled so far.
    pub closed spec fn buffered(self) -> Seq<SignalObservation> {
        self.buffer@
    }

    /// How many source entries have been pulled.
    pub closed spec fn pulled(self) -> int {
        self.cursor as int
    }

    /// Whether the stream was found exhausted.
    pub closed spec fn exhausted(self) -> bool {
        self.eos
    }

    pub closed spec fn name_spec(self) -> Seq<char> {
        self.name@
    }

    pub closed spec fn reference_position_spec(self) -> (i64, i64, i64) {
        self.reference_position_mm
    }

    /// Internal consistency of the pull state.
    pub closed spec fn wf(self) -> bool {
        &&& self.cursor <= self.source.len()
        &&& (self.eos ==> self.cursor == self.source.len())
        &&& self.buffer@ == self.source@.subrange(0, self.cursor as int)
    }

    /// Builds the station around its stream and mandatory metadata. Nothing
    /// is pulled yet.
    pub fn new(
        name: String,
        reference_position_mm: (i64, i64, i64),
        source: Vec<SignalObservation>,
    ) -> (r: Self)
        ensures
            r.wf(),
            r.samples() == source@,
            r.buffered().len() == 0,
            r.name_spec() == name@,
            r.reference_position_spec() == reference_position_mm,
            !r.exhausted(),
    {
        let s = RTKBaseStation {
            name,
            reference_position_mm,
            source,
            cursor: 0,
            eos: false,
            buffer: Vec::new(),
        };
        proof {
            assert(s.buffer@ =~= s.source@.subrange(0, 0));
        }
        s
    }

    /// The station's name.
    pub fn name(&self) -> (r: String)
        ensures
            r@ == self.name_spec(),
    {
        self.name.clone()
    }

    /// The fixed antenna reference position, ECEF, millimeters.
    pub fn reference_position_ecef_mm(&self) -> (r: (i64, i64, i64))
        ensures
            r == self.reference_position_spec(),
    {
        self.reference_position_mm
    }

    /// Pulls from the stream until it is exhausted or a pulled sample's
    /// timestamp exceeds `now_ns`; every pulled sample is buffered, all but
    /// the last pulled one are at or before `now_ns`, and a stream once
    /// found exhausted stays exhausted.
    pub fn new_epoch(&mut self, now_ns: u64)
        requires
            old(self).wf(),
        ensures
            final(self).wf(),
            final(self).samples() == old(self).samples(),
            final(self).name_spec() == old(self).name_spec(),
            final(self).reference_position_spec() == old(self).reference_position_spec(),
            old(self).pulled() <= final(self).pulled() <= final(self).samples().len(),
            old(self).exhausted() ==> final(self).exhausted(),
            final(self).buffered() == old(self).buffered() + final(self).samples().subrange(
                old(self).pulled(),
                final(self).pulled(),
            ),
            forall|i: int|
                old(self).pulled() <= i < final(self).pulled() - 1
                    ==> (#[trigger] final(self).samples()[i]).epoch_ns <= now_ns,
            (final(self).exhausted() && final(self).pulled() == final(self).samples().len()) || (
            !(final(self).exhausted()) && old(self).pulled() < final(self).pulled()
                && final(self).samples()[final(self).pulled() - 1].epoch_ns > now_ns),
    {
        let ghost base_cursor: int = self.cursor as int;
        let ghost src = self.source@;
        let ghost base_buf = self.buffer@;
        loop
            invariant_except_break
                forall|i: int|
                    base_cursor <= i < self.cursor ==> (#[trigger] src[i]).epoch_ns <= now_ns,
            invariant
                0 <= base_cursor <= self.cursor <= self.source.len(),
                self.source@ == src,
                self.name@ == old(self).name_spec(),
                self.reference_position_mm == old(self).reference_position_spec(),
                self.eos ==> self.cursor == self.source.len(),
                old(self).exhausted() ==> self.eos,
                self.buffer@ == src.subrange(0, self.cursor as int),
                base_buf == src.subrange(0, base_cursor),
                forall|i: int|
                    base_cursor <= i < self.cursor - 1 ==> (#[trigger] src[i]).epoch_ns <= now_ns,
            ensures
                self.eos && self.cursor == self.source.len() || !self.eos && base_cursor
                    < self.cursor && src[self.cursor - 1].epoch_ns > now_ns,
            decreases self.source.len() - self.cursor + if self.eos {
                0int
            } else {
                1int
            },
        {
            if self.eos {
                break ;
            }
            if self.cursor < self.source.len() {
                let sample = self.source[self.cursor];
                self.cursor = self.cursor + 1;
                self.buffer.push(sample);
                proof {
                    assert(self.buffer@ =~= src.subrange(0, self.cursor as int));
                }
                if sample.epoch_ns > now_ns {
                    break ;
                }
            } else {
                self.eos = true;
            }
        }
        proof {
            assert(self.buffer@ =~= base_buf + src.subrange(base_cursor, self.cursor as int));
        }
    }

    /// Exposes the buffered samples of one epoch to the solver: one
    /// candidate per satellite observed at exactly `epoch_ns`, its
    /// observation sets grouped by band the same way the rover's
    /// aggregation groups them. Samples of other epochs, and samples whose
    /// band is not recognized, contribute nothing.
    pub fn observe(&self, epoch_ns: u64) -> (r: Vec<Candidate>)
        ensures
            r@.map_values(|c: Candidate| (c.sv, c.observations@)) == observed_accum(
                self.buffered(),
                epoch_ns,
                Seq::<(SatelliteId, Seq<Observation>)>::empty(),
            ),
            forall|k: int| 0 <= k < r@.len() ==> (#[trigger] r@[k]).epoch_ns == epoch_ns,
    {
        let ghost full = observed_accum(
            self.buffered(),
            epoch_ns,
            Seq::<(SatelliteId, Seq<Observation>)>::empty(),
        );
        let mut accum: Vec<(SatelliteId, Vec<Observation>)> = Vec::new();
        let mut k: usize = 0;
        proof {
            assert(self.buffer@.skip(0) =~= self.buffer@);
            assert(pairs_view(accum@) =~= Seq::<(SatelliteId, Seq<Observation>)>::empty());
        }
        while k < self.buffer.len()
            invariant
                0 <= k <= self.buffer.len(),
                ObservationAggregator::accum_wf(pairs_view(accum@)),
                full == observed_accum(self.buffer@.skip(k as int), epoch_ns, pairs_view(accum@)),
            decreases self.buffer.len() - k,
        {
            let sample = self.buffer[k];
            let ghost pre = pairs_view(accum@);
            proof {
                assert(self.buffer@.skip(k as int)[0] == sample);
                assert(self.buffer@.skip(k as int).drop_first() =~= self.buffer@.skip(k + 1));
            }
            if sample.epoch_ns == epoch_ns {
                if let Ok(band) = crate::cast_rtk_carrier(sample.carrier) {
                    merge_sample(&mut accum, sample.sv, band, sample.kind, sample.value_bits);
                }
            }
            proof {
                assert(pairs_view(accum@) == observe_step(pre, sample, epoch_ns));
            }
            k = k + 1;
        }
        proof {
            assert(self.buffer@.skip(self.buffer@.len() as int).len() == 0);
            assert(pairs_view(accum@) == full);
        }
        build_candidates(&accum, epoch_ns)
    }
}

} // verus!
