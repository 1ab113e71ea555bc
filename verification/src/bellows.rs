//! Bookkeeping core of the bellows engine: the two-state machine over the
//! previous sample (uninitialized vs tracking), the cold-start and tiny-dt
//! rules, and the filter memory that persists across frames. The numeric
//! values pass through as the raw 32-bit encodings that the signal
//! arithmetic uses: that arithmetic is floating point, which the verified
//! core cannot hold, so the caller performs the filter step and commits its
//! results here.

use vstd::prelude::*;

verus! {

/// Mathematical value of a [`BellowsCore`]: the previous sample, if one is
/// tracked, as (angle bits, capture time in microseconds), and the filter
/// memory (smoothed speed and amplitude, as their raw encodings).
pub ghost struct BellowsCoreView {
    pub prev: Option<(u32, u64)>,
    pub speed_smooth_bits: u32,
    pub a_bits: u32,
}

/// The state of a core that tracks nothing yet: no previous sample, zeroed
/// filter memory. A freshly built core and a reset one both have it.
pub open spec fn fresh_core() -> BellowsCoreView {
    BellowsCoreView { prev: None, speed_smooth_bits: 0, a_bits: 0 }
}

/// What one frame asks of the caller.
#[derive(Debug, Clone, Copy, PartialEq, Eq, Structural)]
pub enum BellowsAction {
    /// No arithmetic this frame: the frame's output carries no motion (zero
    /// velocity and raw speed) and the stored amplitude and smoothed speed,
    /// unchanged. Raised on the cold-start frame and when dt is too small to
    /// divide by.
    Hold,
    /// A full filter step: the caller derives the velocity from the previous
    /// angle and this dt, runs the filters, and commits the new memory
    /// together with the sample just seen.
    Step { prev_theta_bits: u32, dt_micros: u64 },
}

/// One frame of bookkeeping. A first sample is recorded as the previous one
/// and asks for a hold; a sample at most one microsecond after the previous
/// one asks for a hold and is not recorded, so the next valid step measures
/// from the sample that was; any other sample asks for a full step over the
/// elapsed time. The filter memory is never touched here.
pub open spec fn spec_begin_update(v: BellowsCoreView, theta_bits: u32, t_micros: u64) -> (
    BellowsCoreView,
    BellowsAction,
) {
    match v.prev {
        None => (
            BellowsCoreView {
                prev: Some((theta_bits, t_micros)),
                speed_smooth_bits: v.speed_smooth_bits,
                a_bits: v.a_bits,
            },
            BellowsAction::Hold,
        ),
        Some(p) => {
            if t_micros <= p.1 + 1 {
                (v, BellowsAction::Hold)
            } else {
                (
                    v,
                    BellowsAction::Step {
                        prev_theta_bits: p.0,
                        dt_micros: (t_micros - p.1) as u64,
                    },
                )
            }
        },
    }
}

/// Persistent state of the bellows pipeline: the previous sample and the
/// filter memory. Exclusively owned by the engine around it.
pub struct BellowsCore {
    prev_theta_bits: Option<u32>,
    prev_t_micros: Option<u64>,
    speed_smooth_bits: u32,
    a_bits: u32,
}

impl View for BellowsCore {
    type V = BellowsCoreView;

    closed spec fn view(&self) -> BellowsCoreView {
        BellowsCoreView {
            prev: match (self.prev_theta_bits, self.prev_t_micros) {
                (Some(th), Some(t)) => Some((th, t)),
                _ => None,
            },
            speed_smooth_bits: self.speed_smooth_bits,
            a_bits: self.a_bits,
        }
    }
}

impl BellowsCore {
    /// A core that has seen no sample: cold, with zeroed memory.
    pub fn new() -> (r: BellowsCore)
        ensures
            r@ == fresh_core(),
    {
        BellowsCore {
            prev_theta_bits: None,
            prev_t_micros: None,
            speed_smooth_bits: 0,
            a_bits: 0,
        }
    }

    /// Cold start: forget the previous sample and zero the filter memory,
    /// leaving the core exactly as a freshly constructed one.
    pub fn reset(&mut self)
        ensures
            final(self)@ == fresh_core(),
    {
        self.prev_theta_bits = None;
        self.prev_t_micros = None;
        self.speed_smooth_bits = 0;
        self.a_bits = 0;
    }

    /// The stored smoothed speed, as its raw encoding.
    pub fn speed_smooth_bits(&self) -> (r: u32)
        ensures
            r == self@.speed_smooth_bits,
    {
        self.speed_smooth_bits
    }

    /// The stored amplitude, as its raw encoding.
    pub fn a_bits(&self) -> (r: u32)
        ensures
            r == self@.a_bits,
    {
        self.a_bits
    }

    /// Begin one frame: decide, per [`spec_begin_update`], whether this frame
    /// holds or runs a filter step, and record a first sample.
    pub fn begin_update(&mut self, theta_bits: u32, t_micros: u64) -> (r: BellowsAction)
        ensures
            (final(self)@, r) == spec_begin_update(old(self)@, theta_bits, t_micros),
    {
        match (self.prev_theta_bits, self.prev_t_micros) {
            (Some(prev_theta), Some(prev_t)) => {
                if t_micros <= prev_t || t_micros - prev_t <= 1 {
                    BellowsAction::Hold
                } else {
                    BellowsAction::Step { prev_theta_bits: prev_theta, dt_micros: t_micros - prev_t }
                }
            },
            _ => {
                self.prev_theta_bits = Some(theta_bits);
                self.prev_t_micros = Some(t_micros);
                BellowsAction::Hold
            },
        }
    }

    /// Commit a completed filter step: store the new memory and advance the
    /// previous sample to the one this frame saw.
    pub fn commit_step(&mut self, theta_bits: u32, t_micros: u64, speed_smooth_bits: u32, a_bits: u32)
        ensures
            final(self)@ == (BellowsCoreView {
                prev: Some((theta_bits, t_micros)),
                speed_smooth_bits,
                a_bits,
            }),
    {
        self.prev_theta_bits = Some(theta_bits);
        self.prev_t_micros = Some(t_micros);
        self.speed_smooth_bits = speed_smooth_bits;
        self.a_bits = a_bits;
    }
}

/// The cold-start frame does no arithmetic and loses no memory: on a core
/// that tracks nothing, an update records the sample, asks for a hold — so
/// the frame reports zero velocity and raw speed — and preserves the stored
/// amplitude and smoothed speed rather than zeroing them.
pub proof fn lemma_cold_start_holds(v: BellowsCoreView, theta_bits: u32, t_micros: u64)
    requires
        v.prev is None,
    ensures
        spec_begin_update(v, theta_bits, t_micros) == (
            BellowsCoreView {
                prev: Some((theta_bits, t_micros)),
                speed_smooth_bits: v.speed_smooth_bits,
                a_bits: v.a_bits,
            },
            BellowsAction::Hold,
        ),
{
}

/// After a reset the engine behaves as a newly constructed one: on the fresh
/// state an update records the sample into otherwise zeroed memory and asks
/// for the same cold-start hold, whatever history came before the reset.
pub proof fn lemma_reset_restores_cold_start(theta_bits: u32, t_micros: u64)
    ensures
        spec_begin_update(fresh_core(), theta_bits, t_micros) == (
            BellowsCoreView {
                prev: Some((theta_bits, t_micros)),
                speed_smooth_bits: 0,
                a_bits: 0,
            },
            BellowsAction::Hold,
        ),
{
}

} // verus!
