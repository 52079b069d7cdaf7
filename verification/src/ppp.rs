//! Epoch synchronization and observation grouping.
//!
//! [`ObservationAggregator`] consumes a non-decreasing stream of per-signal
//! observation samples, classifies each by carrier band, groups them into
//! per-satellite observation sets, and on each timestamp boundary finalizes
//! one batch of candidates for the positioning solver. [`Solutions`] records
//! the solver's verdict per finalized epoch.

use vstd::prelude::*;

use crate::ephemeris::{EphemerisBuffer, SatelliteId};
use crate::{cast_rtk_carrier, cast_rtk_carrier_spec, Carrier, CarrierError, RtkCarrier};

verus! {

/// The observable kinds a sample can carry.
#[derive(Clone, Copy, Debug, PartialEq, Eq, Structural)]
pub enum ObservableKind {
    PseudoRange,
    PhaseRange,
    Doppler,
}

/// One sample of the raw observation stream: a timestamp, a satellite, a
/// carrier band, an observable kind and the measured value, carried as its
/// raw bit pattern, opaque to this crate.
#[derive(Clone, Copy, Debug, PartialEq, Eq)]
pub struct SignalObservation {
    pub epoch_ns: u64,
    pub sv: SatelliteId,
    pub carrier: Carrier,
    pub kind: ObservableKind,
    pub value_bits: u64,
}

/// The accumulated observations of one (satellite, band) pair: the three
/// observable kinds populate distinct fields of a single record, so one band
/// yields one record, not three.
#[derive(Clone, Copy, Debug, PartialEq, Eq)]
pub struct Observation {
    pub carrier: RtkCarrier,
    pub pseudo_range_bits: Option<u64>,
    pub phase_range_bits: Option<u64>,
    pub doppler_bits: Option<u64>,
}

/// The record created by the first sample of a band.
pub open spec fn fresh_observation(carrier: RtkCarrier, kind: ObservableKind, bits: u64) -> Observation {
    match kind {
        ObservableKind::PseudoRange => Observation {
            carrier,
            pseudo_range_bits: Some(bits),
            phase_range_bits: None,
            doppler_bits: None,
        },
        ObservableKind::PhaseRange => Observation {
            carrier,
            pseudo_range_bits: None,
            phase_range_bits: Some(bits),
            doppler_bits: None,
        },
        ObservableKind::Doppler => Observation {
            carrier,
            pseudo_range_bits: None,
            phase_range_bits: None,
            doppler_bits: Some(bits),
        },
    }
}

/// A later sample of the same band updates the matching field in place.
pub open spec fn merged_observation(o: Observation, kind: ObservableKind, bits: u64) -> Observation {
    match kind {
        ObservableKind::PseudoRange => Observation {
            carrier: o.carrier,
            pseudo_range_bits: Some(bits),
            phase_range_bits: o.phase_range_bits,
            doppler_bits: o.doppler_bits,
        },
        ObservableKind::PhaseRange => Observation {
            carrier: o.carrier,
            pseudo_range_bits: o.pseudo_range_bits,
            phase_range_bits: Some(bits),
            doppler_bits: o.doppler_bits,
        },
        ObservableKind::Doppler => Observation {
            carrier: o.carrier,
            pseudo_range_bits: o.pseudo_range_bits,
            phase_range_bits: o.phase_range_bits,
            doppler_bits: Some(bits),
        },
    }
}

fn fresh_observation_exec(carrier: RtkCarrier, kind: ObservableKind, bits: u64) -> (r: Observation)
    ensures
        r == fresh_observation(carrier, kind, bits),
{
    match kind {
        ObservableKind::PseudoRange => Observation {
            carrier,
            pseudo_range_bits: Some(bits),
            phase_range_bits: None,
            doppler_bits: None,
        },
        ObservableKind::PhaseRange => Observation {
            carrier,
            pseudo_range_bits: None,
            phase_range_bits: Some(bits),
            doppler_bits: None,
        },
        ObservableKind::Doppler => Observation {
            carrier,
            pseudo_range_bits: None,
            phase_range_bits: None,
            doppler_bits: Some(bits),
        },
    }
}

fn merged_observation_exec(o: Observation, kind: ObservableKind, bits: u64) -> (r: Observation)
    ensures
        r == merged_observation(o, kind, bits),
{
    match kind {
        ObservableKind::PseudoRange => Observation {
            carrier: o.carrier,
            pseudo_range_bits: Some(bits),
            phase_range_bits: o.phase_range_bits,
            doppler_bits: o.doppler_bits,
        },
        ObservableKind::PhaseRange => Observation {
            carrier: o.carrier,
            pseudo_range_bits: o.pseudo_range_bits,
            phase_range_bits: Some(bits),
            doppler_bits: o.doppler_bits,
        },
        ObservableKind::Doppler => Observation {
            carrier: o.carrier,
            pseudo_range_bits: o.pseudo_range_bits,
            phase_range_bits: o.phase_range_bits,
            doppler_bits: Some(bits),
        },
    }
}

/// The per-satellite, per-epoch bundle handed to the solver.
#[derive(Clone, Debug, PartialEq, Eq)]
pub struct Candidate {
    pub sv: SatelliteId,
    pub epoch_ns: u64,
    pub observations: Vec<Observation>,
}

/// One finalized epoch: the batch of candidates submitted to the solver in a
/// single call.
#[derive(Clone, Debug, PartialEq, Eq)]
pub struct Batch {
    pub epoch_ns: u64,
    pub candidates: Vec<Candidate>,
}

impl Batch {
    /// The batch content as (satellite, observations) pairs.
    pub open spec fn view_pairs(self) -> Seq<(SatelliteId, Seq<Observation>)> {
        self.candidates@.map_values(|c: Candidate| (c.sv, c.observations@))
    }
}

/// First index of `sv` in the accumulation, or -1.
pub open spec fn sv_index(accum: Seq<(SatelliteId, Seq<Observation>)>, sv: SatelliteId) -> int
    decreases accum.len(),
{
    if accum.len() == 0 {
        -1
    } else if accum[0].0 == sv {
        0
    } else {
        let r = sv_index(accum.drop_first(), sv);
        if r == -1 {
            -1
        } else {
            r + 1
        }
    }
}

/// First index of `carrier` in a band record list, or -1.
pub open spec fn band_index(obs: Seq<Observation>, carrier: RtkCarrier) -> int
    decreases obs.len(),
{
    if obs.len() == 0 {
        -1
    } else if obs[0].carrier == carrier {
        0
    } else {
        let r = band_index(obs.drop_first(), carrier);
        if r == -1 {
            -1
        } else {
            r + 1
        }
    }
}

proof fn lemma_sv_index_at(accum: Seq<(SatelliteId, Seq<Observation>)>, sv: SatelliteId, i: int)
    requires
        0 <= i < accum.len(),
        forall|k: int| 0 <= k < i ==> (#[trigger] accum[k]).0 != sv,
        accum[i].0 == sv,
    ensures
        sv_index(accum, sv) == i,
    decreases i,
{
    if i > 0 {
        assert(accum[0].0 != sv);
        lemma_sv_index_at(accum.drop_first(), sv, i - 1);
    }
}

proof fn lemma_sv_index_absent(accum: Seq<(SatelliteId, Seq<Observation>)>, sv: SatelliteId)
    requires
        forall|k: int| 0 <= k < accum.len() ==> (#[trigger] accum[k]).0 != sv,
    ensures
        sv_index(accum, sv) == -1,
    decreases accum.len(),
{
    if accum.len() > 0 {
        lemma_sv_index_absent(accum.drop_first(), sv);
    }
}

proof fn lemma_band_index_at(obs: Seq<Observation>, carrier: RtkCarrier, j: int)
    requires
        0 <= j < obs.len(),
        forall|k: int| 0 <= k < j ==> (#[trigger] obs[k]).carrier != carrier,
        obs[j].carrier == carrier,
    ensures
        band_index(obs, carrier) == j,
    decreases j,
{
    if j > 0 {
        assert(obs[0].carrier != carrier);
        lemma_band_index_at(obs.drop_first(), carrier, j - 1);
    }
}

proof fn lemma_band_index_absent(obs: Seq<Observation>, carrier: RtkCarrier)
    requires
        forall|k: int| 0 <= k < obs.len() ==> (#[trigger] obs[k]).carrier != carrier,
    ensures
        band_index(obs, carrier) == -1,
    decreases obs.len(),
{
    if obs.len() > 0 {
        lemma_band_index_absent(obs.drop_first(), carrier);
    }
}

/// What one recognized sample does to the accumulation: the first sample of a
/// new satellite opens an entry, the first sample of a new band appends a
/// fresh record to that entry, and a repeated band updates its record's field
/// in place.
pub open spec fn merge_into(
    accum: Seq<(SatelliteId, Seq<Observation>)>,
    sv: SatelliteId,
    carrier: RtkCarrier,
    kind: ObservableKind,
    bits: u64,
) -> Seq<(SatelliteId, Seq<Observation>)> {
    let i = sv_index(accum, sv);
    if i == -1 {
        accum.push((sv, seq![fresh_observation(carrier, kind, bits)]))
    } else {
        let obs = accum[i].1;
        let j = band_index(obs, carrier);
        if j == -1 {
            accum.update(i, (sv, obs.push(fresh_observation(carrier, kind, bits))))
        } else {
            accum.update(i, (sv, obs.update(j, merged_observation(obs[j], kind, bits))))
        }
    }
}

/// What one sample does to the "previous timestamp" tracker: a recognized
/// sample becomes the new previous timestamp, a discarded one changes
/// nothing.
pub open spec fn step_past(past: Option<u64>, sample: SignalObservation) -> Option<u64> {
    if cast_rtk_carrier_spec(sample.carrier) is Err {
        past
    } else {
        Some(sample.epoch_ns)
    }
}

/// Whether one sample closes the previous timestamp: it is recognized, a
/// previous timestamp exists, and the sample's timestamp is strictly greater.
pub open spec fn step_emits(past: Option<u64>, sample: SignalObservation) -> bool {
    &&& cast_rtk_carrier_spec(sample.carrier) is Ok
    &&& match past {
        Some(p) => sample.epoch_ns > p,
        None => false,
    }
}

/// Groups a non-decreasing stream of samples into per-satellite observation
/// sets and finalizes one candidate batch per closed timestamp.
pub struct ObservationAggregator {
    /// The most recent recognized sample's timestamp.
    past_epoch: Option<u64>,
    /// Per-satellite accumulation for the current timestamp.
    accum: Vec<(SatelliteId, Vec<Observation>)>,
}

impl ObservationAggregator {
    /// The most recent recognized sample's timestamp.
    pub closed spec fn past(self) -> Option<u64> {
        self.past_epoch
    }

    /// The accumulation as (satellite, observations) pairs, in first-seen
    /// order.
    pub closed spec fn accum_view(self) -> Seq<(SatelliteId, Seq<Observation>)> {
        pairs_view(self.accum@)
    }

    /// Each satellite owns at most one entry.
    pub open spec fn keys_unique(accum: Seq<(SatelliteId, Seq<Observation>)>) -> bool {
        forall|i: int, j: int|
            #![trigger accum[i], accum[j]]
            0 <= i < j < accum.len() ==> accum[i].0 != accum[j].0
    }

    /// Each band owns at most one record within an entry.
    pub open spec fn bands_unique(obs: Seq<Observation>) -> bool {
        forall|i: int, j: int|
            #![trigger obs[i], obs[j]]
            0 <= i < j < obs.len() ==> obs[i].carrier != obs[j].carrier
    }

    /// Accumulation well-formedness: one entry per satellite, one record per
    /// band.
    pub open spec fn accum_wf(accum: Seq<(SatelliteId, Seq<Observation>)>) -> bool {
        &&& Self::keys_unique(accum)
        &&& forall|i: int| 0 <= i < accum.len() ==> Self::bands_unique((#[trigger] accum[i]).1)
    }

    pub closed spec fn wf(self) -> bool {
        Self::accum_wf(self.accum_view())
    }

    /// A fresh aggregator: no previous timestamp, nothing accumulated.
    pub fn new() -> (r: Self)
        ensures
            r.wf(),
            r.past() is None,
            r.accum_view().len() == 0,
    {
        ObservationAggregator { past_epoch: None, accum: Vec::new() }
    }

    /// Classifies one sample, advances the ephemeris buffer to its
    /// timestamp, finalizes the previous timestamp's batch when this sample
    /// opens a strictly newer one, and merges the sample into the current
    /// accumulation.
    ///
    /// A sample whose band is not recognized is discarded alone: nothing else
    /// changes. The returned batch, if any, holds exactly the accumulated
    /// observation sets of the previous timestamp, one candidate per
    /// satellite; and when the buffer's clock stands at that previous
    /// timestamp, every upstream model valid there is still buffered when
    /// the batch is handed out, so the solver finds the buffer complete for
    /// the epoch it is about to solve.
    pub fn process(
        &mut self,
        ephemeris: &mut EphemerisBuffer,
        sample: SignalObservation,
    ) -> (r: Option<Batch>)
        requires
            old(self).wf(),
            old(ephemeris).wf(),
            match old(self).past() {
                Some(p) => p <= sample.epoch_ns,
                None => true,
            },
            match old(ephemeris).advanced_to() {
                Some(t) => t <= sample.epoch_ns,
                None => true,
            },
        ensures
            final(self).wf(),
            final(ephemeris).wf(),
            final(ephemeris).models() == old(ephemeris).models(),
            final(ephemeris).advanced_to() == Some(sample.epoch_ns),
            final(self).past() == step_past(old(self).past(), sample),
            (step_emits(old(self).past(), sample) && old(ephemeris).advanced_to() == old(
                self,
            ).past()) ==> forall|i: int|
                0 <= i < final(ephemeris).models().len()
                    && (#[trigger] final(ephemeris).models()[i]).is_valid_spec(
                    old(self).past()->0,
                ) ==> final(ephemeris).buffered().contains(final(ephemeris).models()[i]),
            cast_rtk_carrier_spec(sample.carrier) is Err ==> r is None && final(self).accum_view()
                == old(self).accum_view(),
            cast_rtk_carrier_spec(sample.carrier) matches Ok(band) ==> {
                &&& final(self).accum_view() == merge_into(
                    if step_emits(old(self).past(), sample) {
                        Seq::<(SatelliteId, Seq<Observation>)>::empty()
                    } else {
                        old(self).accum_view()
                    },
                    sample.sv,
                    band,
                    sample.kind,
                    sample.value_bits,
                )
                &&& if step_emits(old(self).past(), sample) {
                    match r {
                        Some(b) => {
                            &&& b.epoch_ns == old(self).past()->0
                            &&& b.view_pairs() == old(self).accum_view()
                            &&& forall|k: int|
                                0 <= k < b.candidates@.len()
                                    ==> (#[trigger] b.candidates@[k]).epoch_ns == old(
                                    self,
                                ).past()->0
                        },
                        None => false,
                    }
                } else {
                    r is None
                }
            },
    {
        ephemeris.new_epoch(sample.epoch_ns);
        let band = match cast_rtk_carrier(sample.carrier) {
            Ok(c) => c,
            Err(_) => {
                // Unknown signal: the single sample is dropped, the epoch
                // goes on.
                return None;
            },
        };
        let mut out: Option<Batch> = None;
        if let Some(p) = self.past_epoch {
            if sample.epoch_ns > p {
                // Timestamp boundary: one candidate per satellite with
                // accumulated observations, submitted as one batch.
                let candidates = build_candidates(&self.accum, p);
                let batch = Batch { epoch_ns: p, candidates };
                proof {
                    assert(batch.view_pairs() =~= old(self).accum_view());
                }
                out = Some(batch);
                self.accum.clear();
            }
        }
        let ghost base = self.accum_view();
        merge_sample(&mut self.accum, sample.sv, band, sample.kind, sample.value_bits);
        self.past_epoch = Some(sample.epoch_ns);
        out
    }
}

/// First index of `carrier` in a band record list, if any.
fn find_band(obs: &Vec<Observation>, carrier: RtkCarrier) -> (r: Option<usize>)
    ensures
        match r {
            Some(j) => j < obs@.len() && band_index(obs@, carrier) == j,
            None => band_index(obs@, carrier) == -1,
        },
{
    let mut j: usize = 0;
    while j < obs.len()
        invariant
            0 <= j <= obs.len(),
            forall|k: int| 0 <= k < j ==> (#[trigger] obs@[k]).carrier != carrier,
        decreases obs.len() - j,
    {
        if obs[j].carrier == carrier {
            proof {
                lemma_band_index_at(obs@, carrier, j as int);
            }
            return Some(j);
        }
        j = j + 1;
    }
    proof {
        lemma_band_index_absent(obs@, carrier);
    }
    None
}

/// A per-satellite accumulation as (satellite, observations) pairs, in
/// entry order.
pub open spec fn pairs_view(accum: Seq<(SatelliteId, Vec<Observation>)>) -> Seq<
    (SatelliteId, Seq<Observation>),
> {
    accum.map_values(|p: (SatelliteId, Vec<Observation>)| (p.0, p.1@))
}

/// First entry index of `sv` in an accumulation, if any.
fn find_sv_entry(accum: &Vec<(SatelliteId, Vec<Observation>)>, sv: SatelliteId) -> (r: Option<
    usize,
>)
    ensures
        match r {
            Some(i) => i < pairs_view(accum@).len() && sv_index(pairs_view(accum@), sv) == i,
            None => sv_index(pairs_view(accum@), sv) == -1,
        },
{
    let mut i: usize = 0;
    while i < accum.len()
        invariant
            0 <= i <= accum.len(),
            forall|k: int| 0 <= k < i ==> (#[trigger] pairs_view(accum@)[k]).0 != sv,
        decreases accum.len() - i,
    {
        if accum[i].0 == sv {
            proof {
                assert(pairs_view(accum@)[i as int].0 == sv);
                lemma_sv_index_at(pairs_view(accum@), sv, i as int);
            }
            return Some(i);
        }
        i = i + 1;
    }
    proof {
        lemma_sv_index_absent(pairs_view(accum@), sv);
    }
    None
}

/// Merges one recognized sample into a per-satellite accumulation, exactly
/// as `merge_into` describes: the first sample of a new satellite opens an
/// entry, the first sample of a new band appends a fresh record, a repeated
/// band updates its record's field in place.
pub(crate) fn merge_sample(
    accum: &mut Vec<(SatelliteId, Vec<Observation>)>,
    sv: SatelliteId,
    band: RtkCarrier,
    kind: ObservableKind,
    bits: u64,
)
    requires
        ObservationAggregator::accum_wf(pairs_view(old(accum)@)),
    ensures
        pairs_view(final(accum)@) == merge_into(pairs_view(old(accum)@), sv, band, kind, bits),
        ObservationAggregator::accum_wf(pairs_view(final(accum)@)),
{
    let ghost base = pairs_view(accum@);
    match find_sv_entry(accum, sv) {
        None => {
            let mut obs: Vec<Observation> = Vec::new();
            obs.push(fresh_observation_exec(band, kind, bits));
            accum.push((sv, obs));
            proof {
                assert(pairs_view(accum@) =~= base.push(
                    (sv, seq![fresh_observation(band, kind, bits)]),
                ));
                lemma_merge_preserves_wf(base, sv, band, kind, bits);
            }
        },
        Some(i) => {
            let ghost base_raw = accum@;
            let mut entry = accum.remove(i);
            let ghost old_obs = entry.1@;
            match find_band(&entry.1, band) {
                None => {
                    entry.1.push(fresh_observation_exec(band, kind, bits));
                },
                Some(j) => {
                    let merged = merged_observation_exec(entry.1[j], kind, bits);
                    let _ = entry.1.remove(j);
                    entry.1.insert(j, merged);
                    proof {
                        assert(entry.1@ =~= old_obs.update(
                            j as int,
                            merged_observation(old_obs[j as int], kind, bits),
                        ));
                    }
                },
            }
            accum.insert(i, entry);
            proof {
                assert(base[i as int].1 == old_obs);
                let removed = base_raw.remove(i as int);
                assert(removed.len() == base_raw.len() - 1);
                assert(accum@.len() == base_raw.len());
                assert forall|k: int| 0 <= k < base_raw.len() implies accum@[k] == base_raw.update(
                    i as int,
                    entry,
                )[k] by {
                    if k < i {
                        assert(removed[k] == base_raw[k]);
                        assert(accum@[k] == removed[k]);
                    } else if k == i {
                        assert(accum@[k] == entry);
                    } else {
                        assert(removed[k - 1] == base_raw[k]);
                        assert(accum@[k] == removed[k - 1]);
                    }
                }
                assert(accum@ =~= base_raw.update(i as int, entry));
                lemma_sv_index_props(base, sv);
                assert(base[i as int].0 == sv);
                assert(entry.0 == sv);
                assert(pairs_view(accum@) =~= base.update(i as int, (sv, entry.1@)));
                lemma_merge_preserves_wf(base, sv, band, kind, bits);
            }
        },
    }
}

/// Builds one candidate per accumulated satellite, for a closed timestamp.
pub(crate) fn build_candidates(
    accum: &Vec<(SatelliteId, Vec<Observation>)>,
    epoch_ns: u64,
) -> (r: Vec<Candidate>)
    ensures
        r@.map_values(|c: Candidate| (c.sv, c.observations@)) == pairs_view(accum@),
        forall|k: int| 0 <= k < r@.len() ==> (#[trigger] r@[k]).epoch_ns == epoch_ns,
{
    let ghost prior = pairs_view(accum@);
    let mut candidates: Vec<Candidate> = Vec::new();
    let mut i: usize = 0;
    while i < accum.len()
        invariant
            0 <= i <= accum.len(),
            prior == pairs_view(accum@),
            candidates@.len() == i,
            forall|k: int|
                0 <= k < i ==> {
                    &&& (#[trigger] candidates@[k]).sv == prior[k].0
                    &&& candidates@[k].observations@ == prior[k].1
                    &&& candidates@[k].epoch_ns == epoch_ns
                },
        decreases accum.len() - i,
    {
        let sv_k = accum[i].0;
        let obs_copy = copy_observations(&accum[i].1);
        candidates.push(Candidate { sv: sv_k, epoch_ns, observations: obs_copy });
        i = i + 1;
    }
    proof {
        assert(candidates@.map_values(|c: Candidate| (c.sv, c.observations@)) =~= prior);
    }
    candidates
}

/// Copies a band record list element by element.
fn copy_observations(obs: &Vec<Observation>) -> (r: Vec<Observation>)
    ensures
        r@ == obs@,
{
    let mut r: Vec<Observation> = Vec::new();
    let mut i: usize = 0;
    while i < obs.len()
        invariant
            0 <= i <= obs.len(),
            r@ == obs@.subrange(0, i as int),
        decreases obs.len() - i,
    {
        r.push(obs[i]);
        proof {
            assert(r@ =~= obs@.subrange(0, i + 1));
        }
        i = i + 1;
    }
    proof {
        assert(r@ =~= obs@);
    }
    r
}

/// Merging one sample keeps the accumulation well-formed: no second entry
/// for a satellite, no second record for a band.
proof fn lemma_merge_preserves_wf(
    accum: Seq<(SatelliteId, Seq<Observation>)>,
    sv: SatelliteId,
    carrier: RtkCarrier,
    kind: ObservableKind,
    bits: u64,
)
    requires
        ObservationAggregator::accum_wf(accum),
    ensures
        ObservationAggregator::accum_wf(merge_into(accum, sv, carrier, kind, bits)),
{
    let i = sv_index(accum, sv);
    let merged = merge_into(accum, sv, carrier, kind, bits);
    if i == -1 {
        lemma_sv_index_props(accum, sv);
        assert forall|a: int, b: int|
            #![trigger merged[a], merged[b]]
            0 <= a < b < merged.len() implies merged[a].0 != merged[b].0 by {
            if b == merged.len() - 1 {
                assert(merged[a] == accum[a]);
            }
        }
        assert forall|a: int| 0 <= a < merged.len() implies ObservationAggregator::bands_unique(
            (#[trigger] merged[a]).1,
        ) by {
            if a < accum.len() {
                assert(merged[a] == accum[a]);
            } else {
                let one = seq![fresh_observation(carrier, kind, bits)];
                assert(ObservationAggregator::bands_unique(one));
            }
        }
    } else {
        lemma_sv_index_props(accum, sv);
        let obs = accum[i].1;
        let j = band_index(obs, carrier);
        if j == -1 {
            lemma_band_index_props(obs, carrier);
            assert forall|a: int| 0 <= a < merged.len()
                implies ObservationAggregator::bands_unique((#[trigger] merged[a]).1) by {
                if a != i {
                    assert(merged[a] == accum[a]);
                } else {
                    let grown = obs.push(fresh_observation(carrier, kind, bits));
                    assert forall|x: int, y: int|
                        #![trigger grown[x], grown[y]]
                        0 <= x < y < grown.len() implies grown[x].carrier != grown[y].carrier by {
                        if y == grown.len() - 1 {
                            assert(grown[x] == obs[x]);
                            assert(obs[x].carrier != carrier);
                        }
                    }
                }
            }
        } else {
            lemma_band_index_props(obs, carrier);
            assert forall|a: int| 0 <= a < merged.len()
                implies ObservationAggregator::bands_unique((#[trigger] merged[a]).1) by {
                if a != i {
                    assert(merged[a] == accum[a]);
                } else {
                    let upd = obs.update(j, merged_observation(obs[j], kind, bits));
                    assert forall|x: int, y: int|
                        #![trigger upd[x], upd[y]]
                        0 <= x < y < upd.len() implies upd[x].carrier != upd[y].carrier by {
                        assert(upd[x].carrier == obs[x].carrier);
                        assert(upd[y].carrier == obs[y].carrier);
                    }
                }
            }
        }
    }
}

/// The per-epoch solver verdicts of a run: the result map. Epochs strictly
/// increase in record order; an epoch whose solver call failed contributes no
/// entry. The solution payload itself is carried as a handle owned by the
/// surrounding application.
#[derive(Clone, Debug, PartialEq, Eq)]
pub struct Solutions {
    entries: Vec<(u64, u32)>,
}

impl Solutions {
    /// The recorded (epoch, solution handle) pairs, in record order.
    pub closed spec fn entries_view(self) -> Seq<(u64, u32)> {
        self.entries@
    }

    /// Epochs strictly increase.
    pub closed spec fn wf(self) -> bool {
        forall|i: int, j: int|
            #![trigger self.entries@[i], self.entries@[j]]
            0 <= i < j < self.entries@.len() ==> self.entries@[i].0 < self.entries@[j].0
    }

    /// Whether some epoch has a recorded solution.
    pub open spec fn contains_epoch(self, epoch_ns: u64) -> bool {
        exists|i: int|
            0 <= i < self.entries_view().len() && (#[trigger] self.entries_view()[i]).0 == epoch_ns
    }

    /// An empty result map.
    pub fn new() -> (r: Self)
        ensures
            r.wf(),
            r.entries_view().len() == 0,
    {
        Solutions { entries: Vec::new() }
    }

    /// Records the solver's verdict for one finalized epoch: a success is
    /// indexed by its epoch, a failure leaves the map without an entry for
    /// that epoch and the run continues.
    pub fn record(&mut self, epoch_ns: u64, outcome: Option<u32>)
        requires
            old(self).wf(),
            forall|i: int|
                0 <= i < old(self).entries_view().len() ==> (#[trigger] old(
                    self,
                ).entries_view()[i]).0 < epoch_ns,
        ensures
            final(self).wf(),
            match outcome {
                Some(handle) => final(self).entries_view() == old(self).entries_view().push(
                    (epoch_ns, handle),
                ),
                None => final(self).entries_view() == old(self).entries_view()
                    && !(final(self).contains_epoch(epoch_ns)),
            },
    {
        if let Some(handle) = outcome {
            self.entries.push((epoch_ns, handle));
            proof {
                assert forall|i: int, j: int|
                    #![trigger self.entries@[i], self.entries@[j]]
                    0 <= i < j < self.entries@.len() implies self.entries@[i].0
                    < self.entries@[j].0 by {
                    if j == self.entries@.len() - 1 {
                        assert(self.entries@[i] == old(self).entries_view()[i]);
                    }
                }
            }
        }
    }

    /// How many epochs have a solution.
    pub fn len(&self) -> (r: usize)
        ensures
            r == self.entries_view().len(),
    {
        self.entries.len()
    }

    /// Whether the run found no solution at all.
    pub fn is_empty(&self) -> (r: bool)
        ensures
            r == (self.entries_view().len() == 0),
    {
        self.entries.len() == 0
    }

    /// The recorded (epoch, handle) pair at an index, in record order.
    pub fn get(&self, i: usize) -> (r: (u64, u32))
        requires
            i < self.entries_view().len(),
        ensures
            r == self.entries_view()[i as int],
    {
        self.entries[i]
    }
}

/// The stream precondition: timestamps never decrease.
pub open spec fn stream_ordered(samples: Seq<SignalObservation>) -> bool {
    forall|i: int, j: int|
        #![trigger samples[i], samples[j]]
        0 <= i <= j < samples.len() ==> samples[i].epoch_ns <= samples[j].epoch_ns
}

/// Whether a sample's band is recognized by the classification.
pub open spec fn recognized(sample: SignalObservation) -> bool {
    cast_rtk_carrier_spec(sample.carrier) is Ok
}

/// The epochs whose batches a run of the stream submits to the solver, in
/// submission order, starting from a given "previous timestamp" state.
pub open spec fn emitted_epochs(samples: Seq<SignalObservation>, past: Option<u64>) -> Seq<u64>
    decreases samples.len(),
{
    if samples.len() == 0 {
        Seq::empty()
    } else {
        let rest = emitted_epochs(samples.drop_first(), step_past(past, samples[0]));
        if step_emits(past, samples[0]) {
            seq![past->0] + rest
        } else {
            rest
        }
    }
}

/// The outcome paired with the k-th solver call; a missing entry counts as a
/// failure.
pub open spec fn outcome_at(outcomes: Seq<Option<u32>>, k: int) -> Option<u32> {
    if 0 <= k < outcomes.len() {
        outcomes[k]
    } else {
        None
    }
}

/// The result map of a run: the k-th submitted epoch gets an entry exactly
/// when the k-th solver outcome is a success.
pub open spec fn solutions_of(epochs: Seq<u64>, outcomes: Seq<Option<u32>>) -> Seq<(u64, u32)>
    decreases epochs.len(),
{
    if epochs.len() == 0 {
        Seq::empty()
    } else {
        let rest = solutions_of(
            epochs.drop_first(),
            if outcomes.len() == 0 {
                outcomes
            } else {
                outcomes.drop_first()
            },
        );
        match outcome_at(outcomes, 0) {
            Some(handle) => seq![(epochs[0], handle)] + rest,
            None => rest,
        }
    }
}

/// The pending outcomes after one solver call.
pub open spec fn outcomes_rest(outcomes: Seq<Option<u32>>) -> Seq<Option<u32>> {
    if outcomes.len() == 0 {
        outcomes
    } else {
        outcomes.drop_first()
    }
}

/// The outcomes still pending after `n` solver calls; an exhausted list stays
/// empty.
pub open spec fn outcomes_from(outcomes: Seq<Option<u32>>, n: int) -> Seq<Option<u32>> {
    if 0 <= n <= outcomes.len() {
        outcomes.skip(n)
    } else {
        Seq::empty()
    }
}

/// Consuming one outcome moves the pending list forward by one.
proof fn lemma_outcomes_from_step(outcomes: Seq<Option<u32>>, n: int)
    requires
        0 <= n,
    ensures
        outcome_at(outcomes_from(outcomes, n), 0) == outcome_at(outcomes, n),
        outcomes_rest(outcomes_from(outcomes, n)) == outcomes_from(outcomes, n + 1),
{
    if n < outcomes.len() {
        assert(outcomes.skip(n)[0] == outcomes[n]);
        assert(outcomes.skip(n).drop_first() =~= outcomes.skip(n + 1));
    } else {
        assert(outcomes_from(outcomes, n).len() == 0);
        assert(outcomes_from(outcomes, n + 1) =~= outcomes_from(outcomes, n));
    }
}

/// What one sample does to the accumulation: a discarded sample changes
/// nothing; a recognized one that closes the previous timestamp merges into
/// a cleared accumulation, any other merges into the current one.
pub open spec fn step_accum(
    accum: Seq<(SatelliteId, Seq<Observation>)>,
    past: Option<u64>,
    sample: SignalObservation,
) -> Seq<(SatelliteId, Seq<Observation>)> {
    match cast_rtk_carrier_spec(sample.carrier) {
        Ok(band) => merge_into(
            if step_emits(past, sample) {
                Seq::<(SatelliteId, Seq<Observation>)>::empty()
            } else {
                accum
            },
            sample.sv,
            band,
            sample.kind,
            sample.value_bits,
        ),
        Err(_) => accum,
    }
}

/// The contents of the batches a run of the stream submits, in submission
/// order: each batch is exactly the accumulation standing when its
/// timestamp closes.
pub open spec fn emitted_contents(
    samples: Seq<SignalObservation>,
    past: Option<u64>,
    accum: Seq<(SatelliteId, Seq<Observation>)>,
) -> Seq<Seq<(SatelliteId, Seq<Observation>)>>
    decreases samples.len(),
{
    if samples.len() == 0 {
        Seq::empty()
    } else {
        let rest = emitted_contents(
            samples.drop_first(),
            step_past(past, samples[0]),
            step_accum(accum, past, samples[0]),
        );
        if step_emits(past, samples[0]) {
            seq![accum] + rest
        } else {
            rest
        }
    }
}

/// The contents of a batch list.
pub open spec fn batch_views(batches: Seq<Batch>) -> Seq<Seq<(SatelliteId, Seq<Observation>)>> {
    batches.map_values(|b: Batch| b.view_pairs())
}

/// Unfolds one emitting step of the batch contents.
proof fn lemma_contents_head_emit(
    stream: Seq<SignalObservation>,
    past: Option<u64>,
    accum: Seq<(SatelliteId, Seq<Observation>)>,
)
    requires
        stream.len() > 0,
        step_emits(past, stream[0]),
    ensures
        emitted_contents(stream, past, accum) == seq![accum] + emitted_contents(
            stream.drop_first(),
            Some(stream[0].epoch_ns),
            step_accum(accum, past, stream[0]),
        ),
{
    assert(step_past(past, stream[0]) == Some(stream[0].epoch_ns));
}

/// Unfolds one non-emitting step of the batch contents.
proof fn lemma_contents_head_skip(
    stream: Seq<SignalObservation>,
    past: Option<u64>,
    accum: Seq<(SatelliteId, Seq<Observation>)>,
)
    requires
        stream.len() > 0,
        !step_emits(past, stream[0]),
    ensures
        emitted_contents(stream, past, accum) == emitted_contents(
            stream.drop_first(),
            step_past(past, stream[0]),
            step_accum(accum, past, stream[0]),
        ),
{
}

proof fn lemma_concat_push_views(
    a: Seq<Seq<(SatelliteId, Seq<Observation>)>>,
    x: Seq<(SatelliteId, Seq<Observation>)>,
    b: Seq<Seq<(SatelliteId, Seq<Observation>)>>,
)
    ensures
        a.push(x) + b == a + (seq![x] + b),
{
    assert(a.push(x) + b =~= a + (seq![x] + b));
}

/// Unfolds one emitting step of the run.
proof fn lemma_emitted_head_emit(stream: Seq<SignalObservation>, past: Option<u64>)
    requires
        stream.len() > 0,
        step_emits(past, stream[0]),
    ensures
        emitted_epochs(stream, past) == seq![past->0] + emitted_epochs(
            stream.drop_first(),
            Some(stream[0].epoch_ns),
        ),
{
    assert(step_past(past, stream[0]) == Some(stream[0].epoch_ns));
}

/// Unfolds one non-emitting step of the run.
proof fn lemma_emitted_head_skip(stream: Seq<SignalObservation>, past: Option<u64>)
    requires
        stream.len() > 0,
        !step_emits(past, stream[0]),
    ensures
        emitted_epochs(stream, past) == emitted_epochs(
            stream.drop_first(),
            step_past(past, stream[0]),
        ),
{
}

/// Unfolds one successful solver verdict of the result map.
proof fn lemma_solutions_head_some(epochs: Seq<u64>, outcomes: Seq<Option<u32>>)
    requires
        epochs.len() > 0,
        outcome_at(outcomes, 0) is Some,
    ensures
        solutions_of(epochs, outcomes) == seq![(epochs[0], outcome_at(outcomes, 0)->0)]
            + solutions_of(epochs.drop_first(), outcomes_rest(outcomes)),
{
}

/// Unfolds one failed solver verdict of the result map.
proof fn lemma_solutions_head_none(epochs: Seq<u64>, outcomes: Seq<Option<u32>>)
    requires
        epochs.len() > 0,
        outcome_at(outcomes, 0) is None,
    ensures
        solutions_of(epochs, outcomes) == solutions_of(
            epochs.drop_first(),
            outcomes_rest(outcomes),
        ),
{
}

/// Appending one element and then a tail is the same as appending the
/// element-headed tail.
proof fn lemma_concat_push_u64(a: Seq<u64>, x: u64, b: Seq<u64>)
    ensures
        a.push(x) + b == a + (seq![x] + b),
{
    assert(a.push(x) + b =~= a + (seq![x] + b));
}

proof fn lemma_concat_push_entry(a: Seq<(u64, u32)>, x: (u64, u32), b: Seq<(u64, u32)>)
    ensures
        a.push(x) + b == a + (seq![x] + b),
{
    assert(a.push(x) + b =~= a + (seq![x] + b));
}

/// Runs the whole observation stream: per sample, advances the ephemeris
/// buffer, classifies, groups and, at each timestamp boundary, submits one
/// batch; the k-th entry of `solver_outcomes` stands for the solver's verdict
/// on the k-th submitted batch. Returns the submitted batches, in order, and
/// the result map.
///
/// The accumulation of the final timestamp is left pending, deliberately
/// mirroring the submission rule: a batch is submitted only when a strictly
/// newer timestamp appears.
#[verifier::rlimit(100)]
#[verifier::spinoff_prover]
pub fn resolve(
    ephemeris: &mut EphemerisBuffer,
    samples: &Vec<SignalObservation>,
    solver_outcomes: &Vec<Option<u32>>,
) -> (r: (Vec<Batch>, Solutions))
    requires
        old(ephemeris).wf(),
        stream_ordered(samples@),
        match old(ephemeris).advanced_to() {
            Some(t) => forall|k: int|
                0 <= k < samples@.len() ==> t <= (#[trigger] samples@[k]).epoch_ns,
            None => true,
        },
    ensures
        final(ephemeris).wf(),
        final(ephemeris).models() == old(ephemeris).models(),
        r.0@.len() == emitted_epochs(samples@, None).len(),
        forall|k: int|
            0 <= k < r.0@.len() ==> (#[trigger] r.0@[k]).epoch_ns == emitted_epochs(
                samples@,
                None,
            )[k],
        forall|k: int|
            0 <= k < r.0@.len() ==> (#[trigger] r.0@[k]).view_pairs() == emitted_contents(
                samples@,
                None,
                Seq::<(SatelliteId, Seq<Observation>)>::empty(),
            )[k],
        r.1.wf(),
        r.1.entries_view() == solutions_of(emitted_epochs(samples@, None), solver_outcomes@),
{
    let ghost full_emitted = emitted_epochs(samples@, None);
    let ghost full_contents = emitted_contents(
        samples@,
        None,
        Seq::<(SatelliteId, Seq<Observation>)>::empty(),
    );
    let mut aggregator = ObservationAggregator::new();
    let mut batches: Vec<Batch> = Vec::new();
    let mut solutions = Solutions::new();
    let mut k: usize = 0;
    proof {
        assert(samples@.skip(0) =~= samples@);
        assert(batch_epochs(batches@) =~= Seq::<u64>::empty());
        assert(batch_epochs(batches@) + full_emitted =~= full_emitted);
        assert(aggregator.accum_view() =~= Seq::<(SatelliteId, Seq<Observation>)>::empty());
        assert(batch_views(batches@) =~= Seq::<Seq<(SatelliteId, Seq<Observation>)>>::empty());
        assert(batch_views(batches@) + full_contents =~= full_contents);
        assert(outcomes_from(solver_outcomes@, 0) =~= solver_outcomes@);
        assert(solutions.entries_view() + solutions_of(full_emitted, solver_outcomes@)
            =~= solutions_of(full_emitted, solver_outcomes@));
    }
    while k < samples.len()
        invariant
            0 <= k <= samples.len(),
            stream_ordered(samples@),
            aggregator.wf(),
            ephemeris.wf(),
            ephemeris.models() == old(ephemeris).models(),
            solutions.wf(),
            match aggregator.past() {
                Some(p) => {
                    &&& forall|m: int|
                        k <= m < samples@.len() ==> p <= (#[trigger] samples@[m]).epoch_ns
                    &&& forall|i: int|
                        0 <= i < solutions.entries_view().len() ==> (
                        #[trigger] solutions.entries_view()[i]).0 < p
                },
                None => solutions.entries_view().len() == 0 && batches@.len() == 0,
            },
            match ephemeris.advanced_to() {
                Some(t) => forall|m: int|
                    k <= m < samples@.len() ==> t <= (#[trigger] samples@[m]).epoch_ns,
                None => true,
            },
            full_emitted == batch_epochs(batches@) + emitted_epochs(
                samples@.skip(k as int),
                aggregator.past(),
            ),
            full_contents == batch_views(batches@) + emitted_contents(
                samples@.skip(k as int),
                aggregator.past(),
                aggregator.accum_view(),
            ),
            forall|m: int|
                0 <= m < batches@.len() ==> (#[trigger] batches@[m]).epoch_ns == batch_epochs(
                    batches@,
                )[m],
            solutions_of(full_emitted, solver_outcomes@) == solutions.entries_view()
                + solutions_of(
                emitted_epochs(samples@.skip(k as int), aggregator.past()),
                outcomes_from(solver_outcomes@, batches@.len() as int),
            ),
        decreases samples.len() - k,
    {
        let sample = samples[k];
        let ghost pre_past = aggregator.past();
        let ghost pre_accum = aggregator.accum_view();
        let ghost pre_batches = batches@;
        let ghost pre_entries = solutions.entries_view();
        let ghost tail = samples@.skip(k as int);
        proof {
            assert(tail[0] == sample);
            assert(tail.drop_first() =~= samples@.skip(k + 1));
        }
        let emitted = aggregator.process(ephemeris, sample);
        if let Some(batch) = emitted {
            let epoch_ns = batch.epoch_ns;
            let idx = batches.len();
            let outcome = if idx < solver_outcomes.len() {
                solver_outcomes[idx]
            } else {
                None
            };
            proof {
                assert(outcome == outcome_at(solver_outcomes@, idx as int));
            }
            solutions.record(epoch_ns, outcome);
            batches.push(batch);
            proof {
                let rest = emitted_epochs(samples@.skip(k + 1), aggregator.past());
                lemma_emitted_head_emit(tail, pre_past);
                assert(emitted_epochs(tail, pre_past) == seq![epoch_ns] + rest);
                // The emitted epochs gain this batch's epoch at the boundary
                // between done and pending.
                assert(batch_epochs(batches@) =~= batch_epochs(pre_batches).push(epoch_ns));
                lemma_concat_push_u64(batch_epochs(pre_batches), epoch_ns, rest);
                assert(batch_epochs(batches@) + rest == full_emitted);
                // The batch contents gain the closed accumulation likewise.
                let rest_contents = emitted_contents(
                    samples@.skip(k + 1),
                    aggregator.past(),
                    aggregator.accum_view(),
                );
                lemma_contents_head_emit(tail, pre_past, pre_accum);
                assert(step_accum(pre_accum, pre_past, sample) == aggregator.accum_view());
                assert(emitted_contents(tail, pre_past, pre_accum) == seq![pre_accum]
                    + rest_contents);
                assert(batch_views(batches@) =~= batch_views(pre_batches).push(pre_accum));
                lemma_concat_push_views(batch_views(pre_batches), pre_accum, rest_contents);
                assert(batch_views(batches@) + rest_contents == full_contents);
                // The pending part of the result map sheds its head outcome.
                let tail_epochs = emitted_epochs(tail, pre_past);
                let tail_outcomes = outcomes_from(solver_outcomes@, idx as int);
                assert(tail_epochs[0] == epoch_ns);
                assert(tail_epochs.drop_first() =~= rest);
                lemma_outcomes_from_step(solver_outcomes@, idx as int);
                let rest_solutions = solutions_of(rest, outcomes_from(solver_outcomes@, idx + 1));
                match outcome {
                    Some(handle) => {
                        lemma_solutions_head_some(tail_epochs, tail_outcomes);
                        assert(solutions_of(tail_epochs, tail_outcomes) == seq![
                            (epoch_ns, handle),
                        ] + rest_solutions);
                        lemma_concat_push_entry(pre_entries, (epoch_ns, handle), rest_solutions);
                        assert(solutions.entries_view() == pre_entries.push((epoch_ns, handle)));
                    },
                    None => {
                        lemma_solutions_head_none(tail_epochs, tail_outcomes);
                        assert(solutions_of(tail_epochs, tail_outcomes) == rest_solutions);
                    },
                }
                assert(solutions_of(full_emitted, solver_outcomes@) == solutions.entries_view()
                    + rest_solutions);
                assert(batches@.len() == idx + 1);
            }
        } else {
            proof {
                lemma_emitted_head_skip(tail, pre_past);
                assert(emitted_epochs(tail, pre_past) == emitted_epochs(
                    samples@.skip(k + 1),
                    aggregator.past(),
                ));
                lemma_contents_head_skip(tail, pre_past, pre_accum);
                assert(step_accum(pre_accum, pre_past, sample) == aggregator.accum_view());
                assert(emitted_contents(tail, pre_past, pre_accum) == emitted_contents(
                    samples@.skip(k + 1),
                    aggregator.past(),
                    aggregator.accum_view(),
                ));
            }
        }
        k = k + 1;
    }
    proof {
        assert(samples@.skip(samples@.len() as int).len() == 0);
        assert(emitted_epochs(samples@.skip(samples@.len() as int), aggregator.past())
            =~= Seq::<u64>::empty());
        assert(batch_epochs(batches@) =~= full_emitted);
        assert(emitted_contents(
            samples@.skip(samples@.len() as int),
            aggregator.past(),
            aggregator.accum_view(),
        ) =~= Seq::<Seq<(SatelliteId, Seq<Observation>)>>::empty());
        assert(batch_views(batches@) =~= full_contents);
        assert(solutions_of(full_emitted, solver_outcomes@) =~= solutions.entries_view());
    }
    (batches, solutions)
}

/// The submission epochs of a batch list.
pub open spec fn batch_epochs(batches: Seq<Batch>) -> Seq<u64> {
    batches.map_values(|b: Batch| b.epoch_ns)
}

/// Number of distinct timestamps carrying at least one recognized-band
/// sample, counted against a previous timestamp state; a discarded sample
/// counts nothing.
pub open spec fn distinct_recognized_from(
    samples: Seq<SignalObservation>,
    prev: Option<u64>,
) -> int
    decreases samples.len(),
{
    if samples.len() == 0 {
        0
    } else if !recognized(samples[0]) {
        distinct_recognized_from(samples.drop_first(), prev)
    } else {
        (if prev == Some(samples[0].epoch_ns) {
            0int
        } else {
            1int
        }) + distinct_recognized_from(samples.drop_first(), Some(samples[0].epoch_ns))
    }
}

/// Number of distinct timestamps of the stream carrying at least one
/// recognized-band sample.
pub open spec fn distinct_recognized_count(samples: Seq<SignalObservation>) -> int {
    distinct_recognized_from(samples, None)
}

/// Once a previous timestamp at most as large as the whole stream exists,
/// every further distinct recognized timestamp closes exactly one batch.
proof fn lemma_emit_count_from(samples: Seq<SignalObservation>, p: u64)
    requires
        stream_ordered(samples),
        samples.len() > 0 ==> p <= samples[0].epoch_ns,
    ensures
        emitted_epochs(samples, Some(p)).len() == distinct_recognized_from(samples, Some(p)),
    decreases samples.len(),
{
    if samples.len() > 0 {
        let s0 = samples[0];
        let rest = samples.drop_first();
        assert forall|i: int, j: int|
            #![trigger rest[i], rest[j]]
            0 <= i <= j < rest.len() implies rest[i].epoch_ns <= rest[j].epoch_ns by {
            assert(rest[i] == samples[i + 1]);
            assert(rest[j] == samples[j + 1]);
        }
        if rest.len() > 0 {
            assert(s0.epoch_ns <= rest[0].epoch_ns) by {
                assert(rest[0] == samples[1]);
            }
        }
        if recognized(s0) {
            lemma_emit_count_from(rest, s0.epoch_ns);
        } else {
            assert(step_past(Some(p), s0) == Some(p));
            lemma_emit_count_from(rest, p);
        }
    }
}

/// One solver invocation per distinct closed timestamp: over any
/// non-decreasing stream, the number of batches submitted to the solver
/// equals the number of distinct timestamps carrying at least one
/// recognized-band sample, minus the final, unflushed one. A timestamp
/// carried only by unrecognized samples is discarded without ever becoming
/// "previous" and counts nothing.
pub proof fn lemma_one_invocation_per_closed_epoch(samples: Seq<SignalObservation>)
    requires
        stream_ordered(samples),
    ensures
        emitted_epochs(samples, None).len() == if distinct_recognized_count(samples) == 0 {
            0int
        } else {
            distinct_recognized_count(samples) - 1
        },
    decreases samples.len(),
{
    if samples.len() > 0 {
        let s0 = samples[0];
        let rest = samples.drop_first();
        assert forall|i: int, j: int|
            #![trigger rest[i], rest[j]]
            0 <= i <= j < rest.len() implies rest[i].epoch_ns <= rest[j].epoch_ns by {
            assert(rest[i] == samples[i + 1]);
            assert(rest[j] == samples[j + 1]);
        }
        if recognized(s0) {
            if rest.len() > 0 {
                assert(s0.epoch_ns <= rest[0].epoch_ns) by {
                    assert(rest[0] == samples[1]);
                }
            }
            lemma_emit_count_from(rest, s0.epoch_ns);
        } else {
            assert(step_past(None, s0) == None::<u64>);
            lemma_one_invocation_per_closed_epoch(rest);
        }
    }
}

/// A discarded sample contributes nothing to the run: removing a sample
/// whose band is not recognized changes neither the submitted epochs nor
/// the batch contents, and with them not the result map either.
pub proof fn lemma_unrecognized_sample_innocuous(
    samples: Seq<SignalObservation>,
    i: int,
    past: Option<u64>,
    accum: Seq<(SatelliteId, Seq<Observation>)>,
)
    requires
        0 <= i < samples.len(),
        !recognized(samples[i]),
    ensures
        emitted_epochs(samples.remove(i), past) == emitted_epochs(samples, past),
        emitted_contents(samples.remove(i), past, accum) == emitted_contents(samples, past, accum),
    decreases samples.len(),
{
    if i == 0 {
        assert(samples.remove(0) =~= samples.drop_first());
        assert(step_past(past, samples[0]) == past);
        assert(step_accum(accum, past, samples[0]) == accum);
        assert(!step_emits(past, samples[0]));
    } else {
        let s0 = samples[0];
        assert(samples.drop_first()[i - 1] == samples[i]);
        lemma_unrecognized_sample_innocuous(
            samples.drop_first(),
            i - 1,
            step_past(past, s0),
            step_accum(accum, past, s0),
        );
        assert(samples.remove(i).len() == samples.len() - 1);
        assert(samples.remove(i)[0] == s0);
        assert(samples.remove(i).drop_first() =~= samples.drop_first().remove(i - 1));
    }
}

/// The epochs a run submits strictly increase: a batch closes only when a
/// strictly newer timestamp appears, so no epoch is ever solved twice.
proof fn lemma_emitted_increasing(samples: Seq<SignalObservation>, past: Option<u64>)
    requires
        stream_ordered(samples),
        match past {
            Some(p) => samples.len() > 0 ==> p <= samples[0].epoch_ns,
            None => true,
        },
    ensures
        forall|a: int, b: int|
            #![trigger emitted_epochs(samples, past)[a], emitted_epochs(samples, past)[b]]
            0 <= a < b < emitted_epochs(samples, past).len() ==> emitted_epochs(samples, past)[a]
                < emitted_epochs(samples, past)[b],
        match past {
            Some(p) => forall|a: int|
                0 <= a < emitted_epochs(samples, past).len() ==> p <= (#[trigger] emitted_epochs(
                    samples,
                    past,
                )[a]),
            None => true,
        },
    decreases samples.len(),
{
    if samples.len() > 0 {
        let s0 = samples[0];
        let rest = samples.drop_first();
        let e = emitted_epochs(samples, past);
        assert forall|i: int, j: int|
            #![trigger rest[i], rest[j]]
            0 <= i <= j < rest.len() implies rest[i].epoch_ns <= rest[j].epoch_ns by {
            assert(rest[i] == samples[i + 1]);
            assert(rest[j] == samples[j + 1]);
        }
        if rest.len() > 0 {
            assert(s0.epoch_ns <= rest[0].epoch_ns) by {
                assert(rest[0] == samples[1]);
            }
        }
        if recognized(s0) {
            lemma_emitted_increasing(rest, Some(s0.epoch_ns));
            let rest_e = emitted_epochs(rest, Some(s0.epoch_ns));
            if step_emits(past, s0) {
                assert(e == seq![past->0] + rest_e);
                assert forall|a: int, b: int|
                    #![trigger e[a], e[b]]
                    0 <= a < b < e.len() implies e[a] < e[b] by {
                    assert(e[b] == rest_e[b - 1]);
                    assert(s0.epoch_ns <= rest_e[b - 1]);
                    if a > 0 {
                        assert(e[a] == rest_e[a - 1]);
                    }
                }
                assert forall|a: int| 0 <= a < e.len() implies past->0 <= e[a] by {
                    if a > 0 {
                        assert(e[a] == rest_e[a - 1]);
                        assert(s0.epoch_ns <= rest_e[a - 1]);
                    }
                }
            } else {
                assert(e == rest_e);
            }
        } else {
            lemma_emitted_increasing(rest, past);
            assert(e == emitted_epochs(rest, past));
        }
    }
}

/// Every entry of the result map carries the epoch of some submitted batch
/// whose own solver verdict was a success.
proof fn lemma_solutions_pairs(epochs: Seq<u64>, outcomes: Seq<Option<u32>>)
    ensures
        forall|m: int|
            0 <= m < solutions_of(epochs, outcomes).len() ==> exists|j: int|
                0 <= j < epochs.len() && epochs[j] == (#[trigger] solutions_of(
                    epochs,
                    outcomes,
                )[m]).0 && outcome_at(outcomes, j) is Some,
    decreases epochs.len(),
{
    if epochs.len() > 0 {
        lemma_solutions_pairs(epochs.drop_first(), outcomes_rest(outcomes));
        let s = solutions_of(epochs, outcomes);
        let rest_s = solutions_of(epochs.drop_first(), outcomes_rest(outcomes));
        assert forall|m: int| 0 <= m < s.len() implies exists|j: int|
            0 <= j < epochs.len() && epochs[j] == (#[trigger] s[m]).0 && outcome_at(
                outcomes,
                j,
            ) is Some by {
            let shifted = match outcome_at(outcomes, 0) {
                Some(h) => m - 1,
                None => m,
            };
            if shifted == -1 {
                assert(epochs[0] == s[0].0 && outcome_at(outcomes, 0) is Some);
            } else {
                assert(s[m] == rest_s[shifted]);
                let j0 = choose|j0: int|
                    0 <= j0 < epochs.drop_first().len() && epochs.drop_first()[j0]
                        == rest_s[shifted].0 && outcome_at(outcomes_rest(outcomes), j0) is Some;
                assert(epochs[j0 + 1] == s[m].0);
                assert(outcomes.len() > 0);
                assert(0 <= j0 < outcomes_rest(outcomes).len());
                assert(outcomes_rest(outcomes)[j0] == outcomes[j0 + 1]);
                assert(outcome_at(outcomes, j0 + 1) is Some);
            }
        }
    }
}

/// A failed solver verdict leaves its epoch without an entry in the result
/// map, while the run continues: the submitted epochs strictly increase, so
/// the failed epoch keys nothing.
pub proof fn lemma_failed_epoch_contributes_nothing(
    samples: Seq<SignalObservation>,
    outcomes: Seq<Option<u32>>,
    k: int,
)
    requires
        stream_ordered(samples),
        0 <= k < emitted_epochs(samples, None).len(),
        outcome_at(outcomes, k) is None,
    ensures
        forall|m: int|
            0 <= m < solutions_of(emitted_epochs(samples, None), outcomes).len()
                ==> (#[trigger] solutions_of(emitted_epochs(samples, None), outcomes)[m]).0
                != emitted_epochs(samples, None)[k],
{
    let epochs = emitted_epochs(samples, None);
    lemma_emitted_increasing(samples, None);
    lemma_solutions_pairs(epochs, outcomes);
    assert forall|m: int|
        0 <= m < solutions_of(epochs, outcomes).len() implies (#[trigger] solutions_of(
        epochs,
        outcomes,
    )[m]).0 != epochs[k] by {
        let j = choose|j: int|
            0 <= j < epochs.len() && epochs[j] == solutions_of(epochs, outcomes)[m].0
                && outcome_at(outcomes, j) is Some;
        if j < k {
            assert(epochs[j] < epochs[k]);
        } else if j > k {
            assert(epochs[k] < epochs[j]);
        }
    }
}

/// Where `sv_index` answers: an index holds the satellite, everything before
/// it does not; -1 means the satellite is absent.
proof fn lemma_sv_index_props(accum: Seq<(SatelliteId, Seq<Observation>)>, sv: SatelliteId)
    ensures
        sv_index(accum, sv) == -1 ==> forall|k: int|
            0 <= k < accum.len() ==> (#[trigger] accum[k]).0 != sv,
        sv_index(accum, sv) != -1 ==> {
            &&& 0 <= sv_index(accum, sv) < accum.len()
            &&& accum[sv_index(accum, sv)].0 == sv
            &&& forall|k: int|
                0 <= k < sv_index(accum, sv) ==> (#[trigger] accum[k]).0 != sv
        },
    decreases accum.len(),
{
    if accum.len() > 0 && accum[0].0 != sv {
        lemma_sv_index_props(accum.drop_first(), sv);
        assert forall|k: int|
            sv_index(accum, sv) == -1 && 0 <= k < accum.len() implies (#[trigger] accum[k]).0 != sv
            by {
            if k > 0 {
                assert(accum.drop_first()[k - 1] == accum[k]);
            }
        }
        assert forall|k: int|
            sv_index(accum, sv) != -1 && 0 <= k < sv_index(accum, sv) implies (#[trigger] accum[k]).0
            != sv by {
            if k > 0 {
                assert(accum.drop_first()[k - 1] == accum[k]);
            }
        }
    }
}

/// Where `band_index` answers: an index holds the band, everything before it
/// does not; -1 means the band is absent.
proof fn lemma_band_index_props(obs: Seq<Observation>, carrier: RtkCarrier)
    ensures
        band_index(obs, carrier) == -1 ==> forall|k: int|
            0 <= k < obs.len() ==> (#[trigger] obs[k]).carrier != carrier,
        band_index(obs, carrier) != -1 ==> {
            &&& 0 <= band_index(obs, carrier) < obs.len()
            &&& obs[band_index(obs, carrier)].carrier == carrier
            &&& forall|k: int|
                0 <= k < band_index(obs, carrier) ==> (#[trigger] obs[k]).carrier != carrier
        },
    decreases obs.len(),
{
    if obs.len() > 0 && obs[0].carrier != carrier {
        lemma_band_index_props(obs.drop_first(), carrier);
        assert forall|k: int|
            band_index(obs, carrier) == -1 && 0 <= k < obs.len() implies (#[trigger] obs[k]).carrier
            != carrier by {
            if k > 0 {
                assert(obs.drop_first()[k - 1] == obs[k]);
            }
        }
        assert forall|k: int|
            band_index(obs, carrier) != -1 && 0 <= k < band_index(obs, carrier) implies (
            #[trigger] obs[k]).carrier != carrier by {
            if k > 0 {
                assert(obs.drop_first()[k - 1] == obs[k]);
            }
        }
    }
}

} // verus!
