//! Time-driven playback over a parsed trajectory.
//!
//! A replay wraps a trajectory with a per-frame duration and a clamped
//! elapsed-time counter, and derives the active playback frame index.
//! Time spans are nanosecond counts.

use crate::legacy_parsers::{has_position, in_bounds, Frame, Trajectory};
use crate::legacy_parsers::Position;
use vstd::arithmetic::div_mod::{lemma_div_is_ordered, lemma_div_multiples_vanish};
use vstd::prelude::*;

verus! {

/// The elapsed time one advance of `delta` leaves: the sum, saturating
/// at `total`.
pub open spec fn next_elapsed(elapsed: int, total: int, delta: u64) -> int {
    if elapsed + delta <= total {
        elapsed + delta
    } else {
        total
    }
}

/// The elapsed time a whole run of advances leaves, first delta first.
pub open spec fn elapsed_after(elapsed: int, total: int, deltas: Seq<u64>) -> int
    decreases deltas.len(),
{
    if deltas.len() == 0 {
        elapsed
    } else {
        elapsed_after(next_elapsed(elapsed, total, deltas.first()), total, deltas.drop_first())
    }
}

/// Law: across any sequence of advances, elapsed time never decreases
/// and never passes the total duration.
pub proof fn lemma_elapsed_monotone_bounded(elapsed: int, total: int, deltas: Seq<u64>)
    requires
        0 <= elapsed <= total,
    ensures
        elapsed <= elapsed_after(elapsed, total, deltas) <= total,
    decreases deltas.len(),
{
    if deltas.len() > 0 {
        lemma_elapsed_monotone_bounded(
            next_elapsed(elapsed, total, deltas.first()),
            total,
            deltas.drop_first(),
        );
    }
}

/// Playback state over a trajectory: elapsed time only ever grows, is
/// clamped to the total duration, and the frame index is its whole
/// quotient by the per-frame duration.
#[derive(Debug)]
pub struct Replay {
    trajectory: Trajectory,
    current_frame_index: usize,
    frame_duration: u64,
    elapsed: u64,
    total_duration: u64,
}

impl Replay {
    /// The frames of the wrapped trajectory.
    pub closed spec fn spec_frames(&self) -> Seq<Seq<Position>> {
        self.trajectory@
    }

    /// The active playback frame index.
    pub closed spec fn spec_index(&self) -> usize {
        self.current_frame_index
    }

    /// The chosen per-frame duration.
    pub closed spec fn spec_frame_duration(&self) -> u64 {
        self.frame_duration
    }

    /// Wall-clock time consumed so far, clamped to the total duration.
    pub closed spec fn spec_elapsed(&self) -> u64 {
        self.elapsed
    }

    /// Duration of the whole playback: per-frame duration times one less
    /// than the frame count, zero with no frames.
    pub closed spec fn spec_total_duration(&self) -> u64 {
        self.total_duration
    }

    /// The playback clock's invariant: a positive per-frame duration,
    /// the derived total duration, elapsed time within it, and the frame
    /// index derived from elapsed time by whole division.
    pub open spec fn wf(&self) -> bool {
        &&& self.spec_frame_duration() > 0
        &&& self.spec_total_duration() as int == if self.spec_frames().len() == 0 {
            0int
        } else {
            self.spec_frame_duration() * (self.spec_frames().len() - 1)
        }
        &&& self.spec_elapsed() <= self.spec_total_duration()
        &&& self.spec_index() as int == self.spec_elapsed() as int / self.spec_frame_duration() as int
    }

    /// Law: while a replay holds frames, its frame index stays strictly
    /// within their count.
    pub proof fn lemma_index_in_range(r: &Replay)
        requires
            r.wf(),
            r.spec_frames().len() > 0,
        ensures
            (r.spec_index() as int) < r.spec_frames().len(),
    {
        let fd = r.spec_frame_duration() as int;
        let n = r.spec_frames().len() as int;
        lemma_div_is_ordered(r.spec_elapsed() as int, r.spec_total_duration() as int, fd);
        lemma_div_multiples_vanish(n - 1, fd);
    }

    /// Wraps a trajectory for playback. A non-positive per-frame
    /// duration is a configuration error, ruled out here; the derived
    /// total duration must fit the clock.
    pub fn new(trajectory: Trajectory, frame_duration: u64) -> (r: Replay)
        requires
            frame_duration > 0,
            trajectory@.len() == 0 || frame_duration * (trajectory@.len() - 1) <= u64::MAX,
        ensures
            r.wf(),
            r.spec_frames() == trajectory@,
            r.spec_frame_duration() == frame_duration,
            r.spec_elapsed() == 0,
            r.spec_index() == 0,
    {
        let frame_count = trajectory.frames.len();
        proof {
            assert(trajectory@.len() == trajectory.frames@.len());
        }
        let total_duration: u64 = if frame_count == 0 {
            0
        } else {
            frame_duration * ((frame_count - 1) as u64)
        };
        proof {
            assert(0int / (frame_duration as int) == 0) by (nonlinear_arith)
                requires
                    frame_duration > 0,
            ;
        }
        Replay { trajectory, current_frame_index: 0, frame_duration, elapsed: 0, total_duration }
    }

    /// Advances the playback clock by `delta` nanoseconds: elapsed time
    /// saturates at the total duration and never decreases, and the
    /// frame index follows it. Advancing by zero changes nothing;
    /// advancing past the total duration freezes playback on the last
    /// frame.
    pub fn advance_by(&mut self, delta: u64)
        requires
            old(self).wf(),
        ensures
            final(self).wf(),
            final(self).spec_frames() == old(self).spec_frames(),
            final(self).spec_frame_duration() == old(self).spec_frame_duration(),
            final(self).spec_total_duration() == old(self).spec_total_duration(),
            final(self).spec_elapsed() as int == next_elapsed(
                old(self).spec_elapsed() as int,
                old(self).spec_total_duration() as int,
                delta,
            ),
            final(self).spec_elapsed() >= old(self).spec_elapsed(),
            final(self).spec_index() >= old(self).spec_index(),
            delta == 0 ==> final(self).spec_elapsed() == old(self).spec_elapsed(),
            delta == 0 ==> final(self).spec_index() == old(self).spec_index(),
            old(self).spec_frames().len() > 0 ==> (final(self).spec_index() as int) < old(self).spec_frames().len(),
            delta > old(self).spec_total_duration() && old(self).spec_frames().len() > 0
                ==> final(self).spec_index() as int == old(self).spec_frames().len() - 1,
    {
        let new_elapsed: u64 = if u64::MAX - self.elapsed < delta {
            self.total_duration
        } else if self.elapsed + delta <= self.total_duration {
            self.elapsed + delta
        } else {
            self.total_duration
        };
        let index: u64 = new_elapsed / self.frame_duration;
        let frame_count = self.trajectory.frames.len();
        proof {
            let fd = self.frame_duration as int;
            let n = self.spec_frames().len() as int;
            assert(n == frame_count as int);
            lemma_div_is_ordered(self.elapsed as int, new_elapsed as int, fd);
            lemma_div_is_ordered(new_elapsed as int, self.total_duration as int, fd);
            if n > 0 {
                lemma_div_multiples_vanish(n - 1, fd);
            } else {
                assert(new_elapsed == 0);
                assert(0int / fd == 0) by (nonlinear_arith)
                    requires
                        fd > 0,
                ;
            }
        }
        self.elapsed = new_elapsed;
        self.current_frame_index = index as usize;
    }

    /// The active frame. Reading a frame from an empty trajectory is a
    /// caller error: check `frames()` first.
    pub fn current_frame(&self) -> (f: &Frame)
        requires
            self.wf(),
            self.spec_frames().len() > 0,
        ensures
            f@ == self.spec_frames()[self.spec_index() as int],
    {
        proof {
            Self::lemma_index_in_range(self);
        }
        &self.trajectory.frames[self.current_frame_index]
    }

    /// The bounding box of the wrapped trajectory, as `Trajectory::area`
    /// gives it.
    pub fn area(&self) -> (r: (i64, i64, i64, i64))
        ensures
            forall|i: int, j: int|
                #[trigger] in_bounds(self.spec_frames(), i, j) ==> r.0 <= self.spec_frames()[i][j].x
                    <= r.1 && r.2 <= self.spec_frames()[i][j].y <= r.3,
            !has_position(self.spec_frames()) ==> r == (i64::MAX, i64::MIN, i64::MAX, i64::MIN),
            has_position(self.spec_frames()) ==> (exists|i: int, j: int|
                #[trigger] in_bounds(self.spec_frames(), i, j) && self.spec_frames()[i][j].x
                    == r.0),
            has_position(self.spec_frames()) ==> (exists|i: int, j: int|
                #[trigger] in_bounds(self.spec_frames(), i, j) && self.spec_frames()[i][j].x
                    == r.1),
            has_position(self.spec_frames()) ==> (exists|i: int, j: int|
                #[trigger] in_bounds(self.spec_frames(), i, j) && self.spec_frames()[i][j].y
                    == r.2),
            has_position(self.spec_frames()) ==> (exists|i: int, j: int|
                #[trigger] in_bounds(self.spec_frames(), i, j) && self.spec_frames()[i][j].y
                    == r.3),
    {
        self.trajectory.area()
    }

    /// How many playback frames the trajectory holds.
    pub fn frames(&self) -> (n: usize)
        ensures
            n == self.spec_frames().len(),
    {
        self.trajectory.frames.len()
    }

    /// The active playback frame index.
    pub fn current_frame_index(&self) -> (i: usize)
        ensures
            i == self.spec_index(),
    {
        self.current_frame_index
    }

    /// Nanoseconds of clamped elapsed playback time.
    pub fn elapsed(&self) -> (e: u64)
        ensures
            e == self.spec_elapsed(),
    {
        self.elapsed
    }

    /// Nanoseconds the whole playback spans.
    pub fn total_duration(&self) -> (d: u64)
        ensures
            d == self.spec_total_duration(),
    {
        self.total_duration
    }
}

} // verus!
