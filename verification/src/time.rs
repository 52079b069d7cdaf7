//! Time-scale correction service.
//!
//! [`Time`] answers epoch conversion queries. With a correction database it
//! applies the precise correction covering the queried epoch and target
//! scale; without one, or when no correction matches, it falls back to the
//! generic scale conversion, which is always defined.

use vstd::prelude::*;

verus! {

/// The time scales between which epochs convert.
#[derive(Clone, Copy, Debug, PartialEq, Eq, Hash, Structural)]
pub enum TimeScale {
    Tai,
    Utc,
    Gpst,
    Gst,
    Bdt,
}

impl TimeScale {
    /// Stable code of a scale, handed across the trusted conversion
    /// boundary.
    pub open spec fn code_spec(self) -> u8 {
        match self {
            TimeScale::Tai => 0,
            TimeScale::Utc => 1,
            TimeScale::Gpst => 2,
            TimeScale::Gst => 3,
            TimeScale::Bdt => 4,
        }
    }

    fn code(self) -> (r: u8)
        ensures
            r == self.code_spec(),
    {
        match self {
            TimeScale::Tai => 0,
            TimeScale::Utc => 1,
            TimeScale::Gpst => 2,
            TimeScale::Gst => 3,
            TimeScale::Bdt => 4,
        }
    }
}

/// What the generic scale conversion returns for an epoch (nanoseconds in
/// the scale of `from_code`) converted to the scale of `to_code`: a function
/// of its arguments alone, the same in every process.
pub uninterp spec fn generic_conversion_ns(ns: u64, from_code: u8, to_code: u8) -> u64;

/// Relies on hifitime's Epoch::to_time_scale for the generic conversion
/// between time scales; converting an epoch to the scale it is already in
/// returns it unchanged (the conversion returns a plain copy then, and the
/// nanosecond count round-trips exactly within u64 range).
#[verifier::external_body]
fn hifitime_convert(ns: u64, from_code: u8, to_code: u8) -> (r: u64)
    requires
        from_code < 5,
        to_code < 5,
    ensures
        r == generic_conversion_ns(ns, from_code, to_code),
        from_code == to_code ==> r == ns,
{
    let scales = [
        hifitime::TimeScale::TAI,
        hifitime::TimeScale::UTC,
        hifitime::TimeScale::GPST,
        hifitime::TimeScale::GST,
        hifitime::TimeScale::BDT,
    ];
    let duration = hifitime::Duration::from_total_nanoseconds(ns as i128);
    let epoch = hifitime::Epoch::from_duration(duration, scales[from_code as usize]);
    let converted = epoch.to_duration_in_time_scale(scales[to_code as usize]);
    converted.total_nanoseconds() as u64
}

/// The generic conversion over the crate's own scale type.
pub open spec fn generic_conversion(ns: u64, from: TimeScale, to: TimeScale) -> u64 {
    generic_conversion_ns(ns, from.code_spec(), to.code_spec())
}

/// Converts an epoch between scales without a correction database: always
/// defined, identity on the same scale.
pub fn generic_epoch_conversion(ns: u64, from: TimeScale, to: TimeScale) -> (r: u64)
    ensures
        r == generic_conversion(ns, from, to),
        from == to ==> r == ns,
{
    hifitime_convert(ns, from.code(), to.code())
}

/// One precise correction: applicable to epochs of one scale converted to
/// another, anchored at a reference epoch, applying a fixed offset.
#[derive(Clone, Copy, Debug, PartialEq, Eq)]
pub struct TimeCorrection {
    /// Scale the correction converts from.
    pub from_scale: TimeScale,
    /// Scale the correction converts to.
    pub to_scale: TimeScale,
    /// Reference (publication) epoch of the correction, nanoseconds.
    pub ref_epoch_ns: u64,
    /// The correction, nanoseconds, added to the converted epoch.
    pub offset_ns: i64,
}

impl TimeCorrection {
    /// Whether this correction answers a `(from, to)` query.
    pub open spec fn matches(self, from: TimeScale, to: TimeScale) -> bool {
        self.from_scale == from && self.to_scale == to
    }

    /// Distance between the correction's reference epoch and a query time.
    pub open spec fn ref_delta(self, t_ns: u64) -> int {
        if self.ref_epoch_ns >= t_ns {
            self.ref_epoch_ns - t_ns
        } else {
            t_ns - self.ref_epoch_ns
        }
    }

    fn ref_delta_exec(&self, t_ns: u64) -> (r: u64)
        ensures
            r == self.ref_delta(t_ns),
    {
        if self.ref_epoch_ns >= t_ns {
            self.ref_epoch_ns - t_ns
        } else {
            t_ns - self.ref_epoch_ns
        }
    }

    /// Whether the correction is still within the weekly relevance window
    /// anchored at `now_ns`.
    pub open spec fn is_current(self, now_ns: u64) -> bool {
        self.ref_epoch_ns + WEEK_NS > now_ns
    }
}

/// One week, in nanoseconds: the granularity of the relevance window.
pub const WEEK_NS: u64 = 604800000000000;

/// The corrections of `corrections` still within the weekly relevance
/// window at `now_ns`, in order.
pub open spec fn current_filter(corrections: Seq<TimeCorrection>, now_ns: u64) -> Seq<
    TimeCorrection,
>
    decreases corrections.len(),
{
    if corrections.len() == 0 {
        corrections
    } else {
        let rest = current_filter(corrections.drop_first(), now_ns);
        if corrections[0].is_current(now_ns) {
            seq![corrections[0]] + rest
        } else {
            rest
        }
    }
}

proof fn lemma_concat_push_correction(a: Seq<TimeCorrection>, x: TimeCorrection, b: Seq<
    TimeCorrection,
>)
    ensures
        a.push(x) + b == a + (seq![x] + b),
{
    assert(a.push(x) + b =~= a + (seq![x] + b));
}

/// Applying an offset to an epoch, saturating at the ends of the u64 range.
pub open spec fn apply_offset_spec(t_ns: u64, offset_ns: i64) -> u64 {
    let v = t_ns + offset_ns;
    if v < 0 {
        0u64
    } else if v > u64::MAX {
        u64::MAX
    } else {
        v as u64
    }
}

fn apply_offset(t_ns: u64, offset_ns: i64) -> (r: u64)
    ensures
        r == apply_offset_spec(t_ns, offset_ns),
{
    if offset_ns >= 0 {
        let o = offset_ns as u64;
        if t_ns > u64::MAX - o {
            u64::MAX
        } else {
            t_ns + o
        }
    } else if offset_ns == i64::MIN {
        let mag = 9223372036854775808u64;
        if t_ns < mag {
            0
        } else {
            t_ns - mag
        }
    } else {
        let mag = (-offset_ns) as u64;
        if t_ns < mag {
            0
        } else {
            t_ns - mag
        }
    }
}

/// The time-correction service: optionally backed by a database of precise
/// corrections, fixed at construction, with graceful generic fallback.
pub struct Time {
    database: Option<Vec<TimeCorrection>>,
}

impl Time {
    /// The corrections currently held, if a database is configured.
    pub closed spec fn database(self) -> Option<Seq<TimeCorrection>> {
        match self.database {
            Some(db) => Some(db@),
            None => None,
        }
    }

    /// Builds the service; the mode, with or without database, never changes
    /// afterwards.
    pub fn new(database: Option<Vec<TimeCorrection>>) -> (r: Self)
        ensures
            match database {
                Some(db) => r.database() == Some(db@),
                None => r.database() is None,
            },
    {
        Time { database }
    }

    /// Expires corrections that have left the weekly relevance window
    /// anchored at `now_ns`: exactly the still-current corrections stay, in
    /// their original order. Does nothing without a database, and never
    /// changes the mode.
    pub fn new_epoch(&mut self, now_ns: u64)
        ensures
            match (old(self).database(), final(self).database()) {
                (Some(before), Some(after)) => after == current_filter(before, now_ns),
                (None, None) => true,
                _ => false,
            },
    {
        if let Some(db) = &mut self.database {
            let ghost before = db@;
            let mut kept: Vec<TimeCorrection> = Vec::new();
            let mut i: usize = 0;
            proof {
                assert(before.skip(0) =~= before);
                assert(kept@ + current_filter(before, now_ns) =~= current_filter(before, now_ns));
            }
            while i < db.len()
                invariant
                    0 <= i <= db.len(),
                    db@ == before,
                    current_filter(before, now_ns) == kept@ + current_filter(
                        before.skip(i as int),
                        now_ns,
                    ),
                decreases db.len() - i,
            {
                let c = db[i];
                let ghost kept_before = kept@;
                proof {
                    assert(before.skip(i as int)[0] == c);
                    assert(before.skip(i as int).drop_first() =~= before.skip(i + 1));
                }
                let current = if now_ns >= WEEK_NS {
                    c.ref_epoch_ns > now_ns - WEEK_NS
                } else {
                    true
                };
                if current {
                    kept.push(c);
                    proof {
                        assert(current_filter(before.skip(i as int), now_ns) == seq![c]
                            + current_filter(before.skip(i + 1), now_ns));
                        lemma_concat_push_correction(
                            kept_before,
                            c,
                            current_filter(before.skip(i + 1), now_ns),
                        );
                    }
                } else {
                    proof {
                        assert(current_filter(before.skip(i as int), now_ns) == current_filter(
                            before.skip(i + 1),
                            now_ns,
                        ));
                    }
                }
                i = i + 1;
            }
            proof {
                assert(before.skip(before.len() as int).len() == 0);
                assert(kept@ + current_filter(before.skip(before.len() as int), now_ns)
                    =~= kept@);
            }
            *db = kept;
        }
    }

    /// Converts an epoch into the target scale: a precise correction
    /// covering the query is applied when the database holds one, with the
    /// correction nearest to the query time winning; otherwise the generic
    /// conversion answers. This never fails.
    pub fn epoch_correction(&self, t_ns: u64, from: TimeScale, to: TimeScale) -> (r: u64)
        ensures
            self.database() is None ==> r == generic_conversion(t_ns, from, to),
            self.database() is None && from == to ==> r == t_ns,
            match self.database() {
                Some(db) => {
                    if exists|i: int| 0 <= i < db.len() && (#[trigger] db[i]).matches(from, to) {
                        exists|i: int|
                            {
                                &&& 0 <= i < db.len()
                                &&& (#[trigger] db[i]).matches(from, to)
                                &&& forall|j: int|
                                    0 <= j < db.len() && (#[trigger] db[j]).matches(from, to)
                                        ==> db[i].ref_delta(t_ns) <= db[j].ref_delta(t_ns)
                                &&& r == apply_offset_spec(t_ns, db[i].offset_ns)
                            }
                    } else {
                        r == generic_conversion(t_ns, from, to)
                    }
                },
                None => true,
            },
    {
        if let Some(db) = &self.database {
            let mut best: Option<TimeCorrection> = None;
            let mut best_delta: u64 = 0;
            let mut i: usize = 0;
            while i < db.len()
                invariant
                    0 <= i <= db.len(),
                    match best {
                        Some(c) => {
                            &&& db@.contains(c)
                            &&& c.matches(from, to)
                            &&& best_delta == c.ref_delta(t_ns)
                            &&& forall|j: int|
                                0 <= j < i && (#[trigger] db@[j]).matches(from, to)
                                    ==> c.ref_delta(t_ns) <= db@[j].ref_delta(t_ns)
                        },
                        None => forall|j: int|
                            0 <= j < i ==> !(#[trigger] db@[j]).matches(from, to),
                    },
                decreases db.len() - i,
            {
                let c = db[i];
                if c.from_scale == from && c.to_scale == to {
                    let d = c.ref_delta_exec(t_ns);
                    match best {
                        None => {
                            best = Some(c);
                            best_delta = d;
                        },
                        Some(_) => {
                            if d < best_delta {
                                best = Some(c);
                                best_delta = d;
                            }
                        },
                    }
                }
                i = i + 1;
            }
            let out: u64 = match best {
                Some(c) => apply_offset(t_ns, c.offset_ns),
                None => generic_epoch_conversion(t_ns, from, to),
            };
            proof {
                if let Some(c) = best {
                    let w = choose|w: int| 0 <= w < db@.len() && db@[w] == c;
                    assert(db@[w].matches(from, to));
                    assert(forall|j: int|
                        0 <= j < db@.len() && (#[trigger] db@[j]).matches(from, to)
                            ==> db@[w].ref_delta(t_ns) <= db@[j].ref_delta(t_ns));
                    assert(out == apply_offset_spec(t_ns, db@[w].offset_ns));
                }
            }
            out
        } else {
            generic_epoch_conversion(t_ns, from, to)
        }
    }
}

} // verus!
