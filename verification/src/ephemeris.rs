//! Buffering and selection of broadcast navigation models.
//!
//! [`EphemerisBuffer`] lazily pulls models from an ordered upstream source,
//! keeps every model that may still serve a query at the current time, retires
//! stale ones, and answers "freshest valid model for this satellite" queries.

use vstd::prelude::*;

verus! {

/// The satellite systems the stream may carry.
#[derive(Clone, Copy, Debug, PartialEq, Eq, Hash, Structural)]
pub enum Constellation {
    Gps,
    Glonass,
    Galileo,
    BeiDou,
    Qzss,
    Irnss,
    Sbas,
}

impl Constellation {
    /// Geostationary augmentation satellites are not supported by the
    /// selection rules; their queries answer "not found".
    pub open spec fn is_supported_spec(self) -> bool {
        self != Constellation::Sbas
    }

    pub fn is_supported(self) -> (r: bool)
        ensures
            r == self.is_supported_spec(),
    {
        match self {
            Constellation::Sbas => false,
            _ => true,
        }
    }
}

/// One satellite of a constellation.
#[derive(Clone, Copy, Debug, PartialEq, Eq, Hash, Structural)]
pub struct SatelliteId {
    pub constellation: Constellation,
    pub prn: u8,
}

/// One broadcast navigation model: a satellite, its clock reference epoch,
/// its orbit reference epoch, the window on which the model declares itself
/// valid, the broadcast group delay if any, and a handle to the opaque orbital
/// parameter set kept by the surrounding application.
///
/// All epochs are nanoseconds in the time scale of the stream.
#[derive(Clone, Copy, Debug, PartialEq, Eq)]
pub struct EphemerisFrame {
    /// Satellite this model describes.
    pub sv: SatelliteId,
    /// Time of clock: reference epoch of the clock correction.
    pub toc_ns: u64,
    /// Time of ephemeris: reference epoch of the orbital parameters.
    pub toe_ns: u64,
    /// First instant at which the model declares itself valid.
    pub valid_from_ns: u64,
    /// Last instant at which the model declares itself valid.
    pub valid_until_ns: u64,
    /// Broadcast total group delay, if the model carries one.
    pub tgd_ns: Option<i64>,
    /// Handle to the full parameter set, owned outside this crate.
    pub payload: u32,
}

impl EphemerisFrame {
    /// A well-formed model brackets its orbit reference epoch with its
    /// validity window.
    pub open spec fn wf(self) -> bool {
        self.valid_from_ns <= self.toe_ns <= self.valid_until_ns
    }

    /// The model's own validity check against a query time.
    pub open spec fn is_valid_spec(self, now_ns: u64) -> bool {
        self.valid_from_ns <= now_ns <= self.valid_until_ns
    }

    pub fn is_valid(&self, now_ns: u64) -> (r: bool)
        ensures
            r == self.is_valid_spec(now_ns),
    {
        self.valid_from_ns <= now_ns && now_ns <= self.valid_until_ns
    }

    /// Distance between the orbit reference epoch and a query time.
    pub open spec fn toe_delta(self, now_ns: u64) -> int {
        if self.toe_ns >= now_ns {
            self.toe_ns - now_ns
        } else {
            now_ns - self.toe_ns
        }
    }

    fn toe_delta_exec(&self, now_ns: u64) -> (r: u64)
        ensures
            r == self.toe_delta(now_ns),
    {
        if self.toe_ns >= now_ns {
            self.toe_ns - now_ns
        } else {
            now_ns - self.toe_ns
        }
    }

    /// A model is kept in the buffer at time `now` while it is still valid or
    /// its orbit reference epoch has not yet passed.
    pub open spec fn retained(self, now_ns: u64) -> bool {
        self.is_valid_spec(now_ns) || self.toe_ns >= now_ns
    }
}

/// A model that is retained at a later time was already retained at every
/// earlier time: retirement never discards a model that could still serve a
/// future query of a forward-only clock.
proof fn lemma_retained_monotone(m: EphemerisFrame, t1_ns: u64, t2_ns: u64)
    requires
        m.wf(),
        t1_ns <= t2_ns,
        m.retained(t2_ns),
    ensures
        m.retained(t1_ns),
{
}

/// The anchor a call of `new_epoch` retires against: the previous advance
/// time, or the call's own time on the first advance. Retiring one step
/// behind the clock keeps every model that can still serve the epoch whose
/// batch is pending while the clock moves on.
pub open spec fn retire_anchor(before: Option<u64>, now_ns: u64) -> u64 {
    match before {
        Some(t_ns) => t_ns,
        None => now_ns,
    }
}

/// The frames of `frames` still retained at `anchor_ns`, in order.
pub open spec fn retain_filter(frames: Seq<EphemerisFrame>, anchor_ns: u64) -> Seq<EphemerisFrame>
    decreases frames.len(),
{
    if frames.len() == 0 {
        frames
    } else {
        let rest = retain_filter(frames.drop_first(), anchor_ns);
        if frames[0].retained(anchor_ns) {
            seq![frames[0]] + rest
        } else {
            rest
        }
    }
}

/// A retained frame survives the filter.
proof fn lemma_retain_filter_contains(frames: Seq<EphemerisFrame>, anchor_ns: u64, i: int)
    requires
        0 <= i < frames.len(),
        frames[i].retained(anchor_ns),
    ensures
        retain_filter(frames, anchor_ns).contains(frames[i]),
    decreases frames.len(),
{
    if i == 0 {
        assert(retain_filter(frames, anchor_ns)[0] == frames[0]);
    } else {
        lemma_retain_filter_contains(frames.drop_first(), anchor_ns, i - 1);
        assert(frames.drop_first()[i - 1] == frames[i]);
        let rest = retain_filter(frames.drop_first(), anchor_ns);
        let k = choose|k: int| 0 <= k < rest.len() && rest[k] == frames[i];
        if frames[0].retained(anchor_ns) {
            assert(retain_filter(frames, anchor_ns)[k + 1] == frames[i]);
        }
    }
}

/// The filter only keeps frames of its input, all retained.
proof fn lemma_retain_filter_elements(frames: Seq<EphemerisFrame>, anchor_ns: u64)
    ensures
        forall|j: int|
            0 <= j < retain_filter(frames, anchor_ns).len() ==> (#[trigger] retain_filter(
                frames,
                anchor_ns,
            )[j]).retained(anchor_ns) && exists|i: int|
                0 <= i < frames.len() && frames[i] == retain_filter(frames, anchor_ns)[j],
    decreases frames.len(),
{
    if frames.len() > 0 {
        lemma_retain_filter_elements(frames.drop_first(), anchor_ns);
        let rest = retain_filter(frames.drop_first(), anchor_ns);
        assert forall|j: int|
            0 <= j < retain_filter(frames, anchor_ns).len() implies (#[trigger] retain_filter(
            frames,
            anchor_ns,
        )[j]).retained(anchor_ns) && exists|i: int|
            0 <= i < frames.len() && frames[i] == retain_filter(frames, anchor_ns)[j] by {
            if frames[0].retained(anchor_ns) && j == 0 {
                assert(retain_filter(frames, anchor_ns)[0] == frames[0]);
            } else {
                let jr = if frames[0].retained(anchor_ns) {
                    j - 1
                } else {
                    j
                };
                assert(retain_filter(frames, anchor_ns)[j] == rest[jr]);
                let i0 = choose|i0: int|
                    0 <= i0 < frames.drop_first().len() && frames.drop_first()[i0] == rest[jr];
                assert(frames[i0 + 1] == retain_filter(frames, anchor_ns)[j]);
            }
        }
    }
}

proof fn lemma_concat_push_frame(a: Seq<EphemerisFrame>, x: EphemerisFrame, b: Seq<EphemerisFrame>)
    ensures
        a.push(x) + b == a + (seq![x] + b),
{
    assert(a.push(x) + b =~= a + (seq![x] + b));
}

/// Bounded, time-ordered buffer of navigation models, lazily filled from an
/// ordered upstream source.
///
/// The source is consumed forward-only: a pull either yields the next model or
/// finds the source exhausted, and nothing is ever re-read.
pub struct EphemerisBuffer {
    /// The upstream source, in non-decreasing validity order.
    source: Vec<EphemerisFrame>,
    /// Next source entry that has not been pulled yet.
    cursor: usize,
    /// End of the upstream stream was reached.
    eos: bool,
    /// Models pulled and not yet retired.
    buffer: Vec<EphemerisFrame>,
    /// Most recent advance time, if any.
    advanced_ns: Option<u64>,
}

impl EphemerisBuffer {
    /// The whole upstream source, pulled or not.
    pub closed spec fn models(self) -> Seq<EphemerisFrame> {
        self.source@
    }

    /// The models currently buffered.
    pub closed spec fn buffered(self) -> Seq<EphemerisFrame> {
        self.buffer@
    }

    /// How many source entries have been pulled so far.
    pub closed spec fn pulled(self) -> int {
        self.cursor as int
    }

    /// Whether the upstream source was found exhausted.
    pub closed spec fn exhausted(self) -> bool {
        self.eos
    }

    /// The time of the most recent advance.
    pub closed spec fn advanced_to(self) -> Option<u64> {
        self.advanced_ns
    }

    /// The upstream source must present well-formed models in non-decreasing
    /// order of their validity windows. This is a precondition of the run,
    /// not something the buffer re-sorts.
    pub open spec fn source_wf(models: Seq<EphemerisFrame>) -> bool {
        &&& forall|i: int| 0 <= i < models.len() ==> (#[trigger] models[i]).wf()
        &&& forall|i: int, j: int|
            #![trigger models[i], models[j]]
            0 <= i <= j < models.len() ==> models[i].valid_from_ns <= models[j].valid_from_ns
    }

    /// Internal consistency: the cursor stays within the source, exhaustion
    /// means the whole source was pulled, every buffered model was pulled,
    /// and once advanced, the pull stopped at exhaustion or at a look-ahead
    /// stop frame and every pulled model still retained at the advance time
    /// is buffered.
    pub closed spec fn wf(self) -> bool {
        &&& self.cursor <= self.source.len()
        &&& (self.eos ==> self.cursor == self.source.len())
        &&& Self::source_wf(self.source@)
        &&& forall|j: int|
            0 <= j < self.buffer@.len() ==> exists|i: int|
                0 <= i < self.cursor && self.source@[i] == #[trigger] self.buffer@[j]
        &&& match self.advanced_ns {
            Some(t_ns) => {
                &&& forall|i: int|
                    0 <= i < self.cursor && (#[trigger] self.source@[i]).retained(t_ns)
                        ==> self.buffer@.contains(self.source@[i])
                &&& (self.eos || (0 < self.cursor && self.source@[self.cursor - 1].toe_ns > t_ns
                    && !self.source@[self.cursor - 1].is_valid_spec(t_ns)))
            },
            None => self.cursor == 0 && self.buffer@.len() == 0 && !self.eos,
        }
    }

    /// Every buffered model comes from the upstream source.
    proof fn lemma_buffered_from_source(self)
        requires
            self.wf(),
        ensures
            forall|j: int|
                0 <= j < self.buffered().len() ==> exists|i: int|
                    0 <= i < self.models().len() && self.models()[i] == #[trigger] self.buffered()[j],
    {
        assert forall|j: int| 0 <= j < self.buffered().len() implies exists|i: int|
            0 <= i < self.models().len() && self.models()[i] == #[trigger] self.buffered()[j] by {
            let i0 = choose|i0: int|
                0 <= i0 < self.cursor && self.source@[i0] == self.buffer@[j];
            assert(self.models()[i0] == self.buffered()[j]);
        }
    }

    /// Completeness of an advanced buffer: the look-ahead stop frame lies
    /// entirely in the future, and the source is ordered by validity, so
    /// every source model valid at the advance time has been pulled, was
    /// never retired, and sits in the buffer.
    proof fn lemma_completeness(self, now_ns: u64)
        requires
            self.wf(),
            self.advanced_to() == Some(now_ns),
        ensures
            forall|i: int|
                0 <= i < self.models().len() && (#[trigger] self.models()[i]).is_valid_spec(now_ns)
                    ==> self.buffered().contains(self.models()[i]),
    {
        assert forall|i: int|
            0 <= i < self.source@.len() && (#[trigger] self.source@[i]).is_valid_spec(now_ns)
                implies self.buffer@.contains(self.source@[i]) by {
            if i >= self.cursor {
                let s = self.cursor - 1;
                assert(self.source@[s].wf());
                assert(self.source@[s].valid_from_ns <= self.source@[i].valid_from_ns);
                assert(false);
            }
        }
    }

    /// Builds a buffer over an ordered source. Nothing is pulled yet.
    pub fn new(source: Vec<EphemerisFrame>) -> (r: Self)
        requires
            Self::source_wf(source@),
        ensures
            r.wf(),
            r.models() == source@,
            r.buffered().len() == 0,
            r.advanced_to() is None,
    {
        EphemerisBuffer { source, cursor: 0, eos: false, buffer: Vec::new(), advanced_ns: None }
    }

    /// Advances the buffer to `now_ns`: pulls from the source until it is
    /// exhausted or a pulled model lies strictly in the future and is not
    /// yet valid (the look-ahead stop), then retires models that are both
    /// stale and self-invalid at the retire anchor: the previous advance
    /// time. Retiring one step behind the clock keeps every model that can
    /// still serve the epoch whose batch is pending while this call moves
    /// the clock on.
    ///
    /// Repeating a call with the same time changes nothing; on a fresh time
    /// the buffer becomes exactly the still-retained frames it held, in
    /// order, followed by the still-retained newly pulled frames. After the
    /// call every upstream model valid at `now_ns` or at the retire anchor
    /// is buffered, and every buffered model comes from the upstream
    /// source. Calling with a decreasing time is ruled out: the source
    /// assumes forward-only time.
    pub fn new_epoch(&mut self, now_ns: u64)
        requires
            old(self).wf(),
            match old(self).advanced_to() {
                Some(t_ns) => t_ns <= now_ns,
                None => true,
            },
        ensures
            final(self).wf(),
            final(self).models() == old(self).models(),
            final(self).advanced_to() == Some(now_ns),
            old(self).pulled() <= final(self).pulled() <= final(self).models().len(),
            old(self).exhausted() ==> final(self).exhausted(),
            old(self).advanced_to() == Some(now_ns) ==> *final(self) == *old(self),
            old(self).advanced_to() != Some(now_ns) ==> final(self).buffered() == retain_filter(
                old(self).buffered() + final(self).models().subrange(
                    old(self).pulled(),
                    final(self).pulled(),
                ),
                retire_anchor(old(self).advanced_to(), now_ns),
            ),
            forall|j: int|
                0 <= j < final(self).buffered().len() ==> exists|i: int|
                    0 <= i < final(self).models().len() && final(self).models()[i]
                        == #[trigger] final(self).buffered()[j],
            forall|i: int|
                0 <= i < final(self).models().len()
                    && (#[trigger] final(self).models()[i]).is_valid_spec(now_ns)
                    ==> final(self).buffered().contains(final(self).models()[i]),
            forall|i: int|
                0 <= i < final(self).models().len()
                    && (#[trigger] final(self).models()[i]).is_valid_spec(
                    retire_anchor(old(self).advanced_to(), now_ns),
                ) ==> final(self).buffered().contains(final(self).models()[i]),
    {
        let anchor_ns: u64 = match self.advanced_ns {
            Some(t_ns) => t_ns,
            None => now_ns,
        };
        let mut already = false;
        if let Some(t_ns) = self.advanced_ns {
            if t_ns == now_ns {
                already = true;
            }
        }
        if already {
            proof {
                self.lemma_completeness(now_ns);
                self.lemma_buffered_from_source();
            }
            return ;
        }
        let ghost src = self.source@;
        let ghost base_buf = self.buffer@;
        let ghost base_cursor: int = self.cursor as int;
        let ghost t_old = self.advanced_ns;
        if !self.eos {
            loop
                invariant
                    0 <= base_cursor <= self.cursor <= self.source.len(),
                    self.source@ == src,
                    self.advanced_ns == t_old,
                    self.eos ==> self.cursor == self.source.len(),
                    Self::source_wf(src),
                    self.buffer@ == base_buf + src.subrange(base_cursor, self.cursor as int),
                ensures
                    self.eos && self.cursor == self.source.len() || !self.eos && base_cursor
                        < self.cursor && src[self.cursor - 1].toe_ns > now_ns && !src[self.cursor
                        - 1].is_valid_spec(now_ns),
                decreases self.source.len() - self.cursor,
            {
                if self.cursor < self.source.len() {
                    let frame = self.source[self.cursor];
                    self.cursor = self.cursor + 1;
                    self.buffer.push(frame);
                    proof {
                        let c = self.cursor as int;
                        assert(frame == src[c - 1]);
                        assert(src.subrange(base_cursor, c).len() == c - base_cursor);
                        assert(src.subrange(base_cursor, c) =~= src.subrange(base_cursor, c - 1)
                            .push(frame));
                        assert(self.buffer@ =~= base_buf + src.subrange(base_cursor, c));
                    }
                    if frame.toe_ns > now_ns && !frame.is_valid(now_ns) {
                        break ;
                    }
                } else {
                    self.eos = true;
                    break ;
                }
            }
        } else {
            proof {
                assert(self.buffer@ =~= base_buf + src.subrange(base_cursor, base_cursor));
            }
        }
        let ghost pre_retire = self.buffer@;
        // Every pulled model still retained at `now_ns` sits in the buffer
        // right now: the newly pulled ones were just pushed, and the
        // previously pulled ones were already kept for the earlier advance
        // time, which retains at least as much.
        proof {
            assert forall|i: int|
                0 <= i < self.cursor && (#[trigger] src[i]).retained(now_ns)
                    implies pre_retire.contains(src[i]) by {
                if i < base_cursor {
                    lemma_retained_monotone(src[i], t_old->0, now_ns);
                    let k = choose|k: int|
                        0 <= k < base_buf.len() && base_buf[k] == src[i];
                    assert(pre_retire[k] == src[i]);
                } else {
                    let k = base_buf.len() + (i - base_cursor);
                    assert(src.subrange(base_cursor, self.cursor as int)[i - base_cursor]
                        == src[i]);
                    assert(pre_retire[k] == src[i]);
                }
            }
            // Models valid at the retire anchor were already buffered for
            // the previous advance.
            if t_old is Some {
                old(self).lemma_completeness(t_old->0);
            }
        }
        let mut kept: Vec<EphemerisFrame> = Vec::new();
        let mut k: usize = 0;
        proof {
            assert(pre_retire.skip(0) =~= pre_retire);
            assert(kept@ + retain_filter(pre_retire, anchor_ns) =~= retain_filter(
                pre_retire,
                anchor_ns,
            ));
        }
        while k < self.buffer.len()
            invariant
                0 <= k <= self.buffer.len(),
                self.buffer@ == pre_retire,
                retain_filter(pre_retire, anchor_ns) == kept@ + retain_filter(
                    pre_retire.skip(k as int),
                    anchor_ns,
                ),
            decreases self.buffer.len() - k,
        {
            let m = self.buffer[k];
            let ghost kept_before = kept@;
            proof {
                assert(pre_retire.skip(k as int)[0] == m);
                assert(pre_retire.skip(k as int).drop_first() =~= pre_retire.skip(k + 1));
            }
            if m.is_valid(anchor_ns) || m.toe_ns >= anchor_ns {
                kept.push(m);
                proof {
                    assert(retain_filter(pre_retire.skip(k as int), anchor_ns) == seq![m]
                        + retain_filter(pre_retire.skip(k + 1), anchor_ns));
                    lemma_concat_push_frame(
                        kept_before,
                        m,
                        retain_filter(pre_retire.skip(k + 1), anchor_ns),
                    );
                }
            } else {
                proof {
                    assert(retain_filter(pre_retire.skip(k as int), anchor_ns) == retain_filter(
                        pre_retire.skip(k + 1),
                        anchor_ns,
                    ));
                }
            }
            k = k + 1;
        }
        proof {
            assert(pre_retire.skip(pre_retire.len() as int).len() == 0);
            assert(kept@ + retain_filter(pre_retire.skip(pre_retire.len() as int), anchor_ns)
                =~= kept@);
        }
        self.buffer = kept;
        self.advanced_ns = Some(now_ns);
        proof {
            assert(self.buffer@ == retain_filter(pre_retire, anchor_ns));
            lemma_retain_filter_elements(pre_retire, anchor_ns);
            // The buffer still only holds pulled models.
            assert forall|j: int| 0 <= j < self.buffer@.len() implies exists|i: int|
                0 <= i < self.cursor && self.source@[i] == #[trigger] self.buffer@[j] by {
                let b = choose|b: int|
                    0 <= b < pre_retire.len() && pre_retire[b] == self.buffer@[j];
                if b < base_buf.len() {
                    assert(old(self).buffer@[b] == self.buffer@[j]);
                    let i0 = choose|i0: int|
                        0 <= i0 < old(self).cursor && old(self).source@[i0] == old(
                            self,
                        ).buffer@[b];
                    assert(self.source@[i0] == self.buffer@[j]);
                } else {
                    let i = base_cursor + (b - base_buf.len());
                    assert(src.subrange(base_cursor, self.cursor as int)[b - base_buf.len()]
                        == src[i]);
                    assert(self.source@[i] == self.buffer@[j]);
                }
            }
            // Pulled models retained at `now_ns` survived retirement: they
            // are also retained at the earlier anchor.
            assert forall|i: int|
                0 <= i < self.cursor && (#[trigger] self.source@[i]).retained(now_ns)
                    implies self.buffer@.contains(self.source@[i]) by {
                let b = choose|b: int|
                    0 <= b < pre_retire.len() && pre_retire[b] == src[i];
                assert(src[i].wf());
                lemma_retained_monotone(src[i], anchor_ns, now_ns);
                lemma_retain_filter_contains(pre_retire, anchor_ns, b);
            }
            assert(self.wf());
            self.lemma_completeness(now_ns);
            self.lemma_buffered_from_source();
            // Completeness at the retire anchor: such models were buffered
            // for the previous advance, are retained at the anchor, and so
            // survived the filter.
            assert forall|i: int|
                0 <= i < self.source@.len() && (#[trigger] self.source@[i]).is_valid_spec(
                    anchor_ns,
                ) implies self.buffer@.contains(self.source@[i]) by {
                if t_old is Some {
                    assert(base_buf.contains(src[i]));
                    let b = choose|b: int|
                        0 <= b < base_buf.len() && base_buf[b] == src[i];
                    assert(pre_retire[b] == src[i]);
                    lemma_retain_filter_contains(pre_retire, anchor_ns, b);
                } else {
                    assert(self.models()[i].is_valid_spec(now_ns));
                }
            }
        }
    }

    /// Selects, among the buffered models for `sv`, one that is valid at
    /// `now_ns` and whose orbit reference epoch is nearest to `now_ns`.
    /// Answers nothing when no buffered model qualifies or the constellation
    /// is not supported. Equidistant candidates may tie either way.
    pub fn select_sv_ephemeris(&self, now_ns: u64, sv: SatelliteId) -> (r: Option<EphemerisFrame>)
        ensures
            match r {
                Some(m) => {
                    &&& self.buffered().contains(m)
                    &&& m.sv == sv
                    &&& m.is_valid_spec(now_ns)
                    &&& sv.constellation.is_supported_spec()
                    &&& forall|j: int|
                        0 <= j < self.buffered().len() && (#[trigger] self.buffered()[j]).sv == sv
                            && self.buffered()[j].is_valid_spec(now_ns) ==> m.toe_delta(now_ns)
                            <= self.buffered()[j].toe_delta(now_ns)
                },
                None => !sv.constellation.is_supported_spec() || forall|j: int|
                    0 <= j < self.buffered().len() && (#[trigger] self.buffered()[j]).sv == sv
                        ==> !self.buffered()[j].is_valid_spec(now_ns),
            },
    {
        if !sv.constellation.is_supported() {
            return None;
        }
        let mut best: Option<EphemerisFrame> = None;
        let mut best_delta: u64 = 0;
        let mut i: usize = 0;
        while i < self.buffer.len()
            invariant
                0 <= i <= self.buffer.len(),
                match best {
                    Some(m) => {
                        &&& self.buffer@.contains(m)
                        &&& m.sv == sv
                        &&& m.is_valid_spec(now_ns)
                        &&& best_delta == m.toe_delta(now_ns)
                        &&& forall|j: int|
                            0 <= j < i && (#[trigger] self.buffer@[j]).sv == sv
                                && self.buffer@[j].is_valid_spec(now_ns) ==> m.toe_delta(now_ns)
                                <= self.buffer@[j].toe_delta(now_ns)
                    },
                    None => forall|j: int|
                        0 <= j < i && (#[trigger] self.buffer@[j]).sv == sv
                            ==> !self.buffer@[j].is_valid_spec(now_ns),
                },
            decreases self.buffer.len() - i,
        {
            let f = self.buffer[i];
            if f.sv == sv && f.is_valid(now_ns) {
                let d = f.toe_delta_exec(now_ns);
                match best {
                    None => {
                        best = Some(f);
                        best_delta = d;
                    },
                    Some(_) => {
                        if d < best_delta {
                            best = Some(f);
                            best_delta = d;
                        }
                    },
                }
            }
            i = i + 1;
        }
        best
    }

    /// How many models are buffered right now.
    pub fn buffered_len(&self) -> (r: usize)
        ensures
            r == self.buffered().len(),
    {
        self.buffer.len()
    }

    /// The buffered model at an index, in pull order.
    pub fn buffered_get(&self, i: usize) -> (r: EphemerisFrame)
        requires
            i < self.buffered().len(),
        ensures
            r == self.buffered()[i as int],
    {
        self.buffer[i]
    }
}

/// The ephemeris interface of the downstream solver is not used by this
/// pipeline: this source deliberately answers every query with nothing.
pub struct NullEphemerisSource {}

impl NullEphemerisSource {
    pub fn new() -> Self {
        Self {  }
    }

    /// Always empty-handed, by design.
    pub fn ephemeris_data(&self, _epoch_ns: u64, _sv: SatelliteId) -> (r: Option<EphemerisFrame>)
        ensures
            r is None,
    {
        None
    }
}

} // verus!
