//! The streaming bounding-box accumulator: a two-phase state machine that
//! seeds a rectangle from the first two points and expands it by every
//! further point, tracking how many points were folded.

use vstd::prelude::*;

use crate::BboxError;
use crate::geom::Point;
use crate::geom::Rect;
use crate::geom::expand_spec;
use crate::geom::fold_spec;
use crate::geom::lemma_fold_push;
use crate::geom::lemma_fold_wf;
use crate::geom::seed_spec;

verus! {

/// The bounding box of a whole point sequence: seeded from the first two
/// points, then expanded by the remaining points in order.
pub open spec fn bbox_of_points(pts: Seq<Point>) -> Rect
    recommends
        pts.len() >= 2,
{
    fold_spec(seed_spec(pts[0], pts[1]), pts.skip(2))
}

/// The accumulator's phases: no point seen yet, one point held back, or a
/// live rectangle once two points exist.
pub enum AccumState {
    Empty,
    One(Point),
    Seeded(Rect),
}

/// Feed points one at a time with [`Accumulator::push`]; `finish` yields the
/// box, or refuses when fewer than two points ever arrived. The ghost
/// history records every pushed point, so the contracts can speak of the
/// whole stream.
pub struct Accumulator {
    pub state: AccumState,
    pub count: u64,
    pub hist: Ghost<Seq<Point>>,
}

impl Accumulator {
    /// The standing invariant: the count and the state reflect the pushed
    /// history exactly.
    pub open spec fn wf(self) -> bool {
        &&& self.count == self.hist@.len()
        &&& match self.state {
            AccumState::Empty => self.hist@.len() == 0,
            AccumState::One(p) => self.hist@.len() == 1 && p == self.hist@[0],
            AccumState::Seeded(r) => self.hist@.len() >= 2 && r == bbox_of_points(self.hist@),
        }
    }

    pub fn new() -> (a: Accumulator)
        ensures
            a.wf(),
            a.hist@ == Seq::<Point>::empty(),
            a.count == 0,
    {
        Accumulator { state: AccumState::Empty, count: 0, hist: Ghost(Seq::empty()) }
    }

    /// How many points were folded so far.
    pub fn count(&self) -> (n: u64)
        ensures
            n == self.count,
    {
        self.count
    }

    pub fn push(&mut self, p: Point)
        requires
            old(self).wf(),
            old(self).count < u64::MAX,
        ensures
            final(self).wf(),
            final(self).hist@ == old(self).hist@.push(p),
            final(self).count == old(self).count + 1,
    {
        let ghost h = self.hist@;
        let mut st = AccumState::Empty;
        core::mem::swap(&mut st, &mut self.state);
        match st {
            AccumState::Empty => {
                self.state = AccumState::One(p);
            },
            AccumState::One(q) => {
                let rect = Rect::new(q, p);
                proof {
                    assert(h.push(p).skip(2) =~= Seq::<Point>::empty());
                    assert(h.push(p)[0] == q && h.push(p)[1] == p);
                }
                self.state = AccumState::Seeded(rect);
            },
            AccumState::Seeded(mut r) => {
                proof {
                    assert(seed_spec(h[0], h[1]).wf());
                    lemma_fold_wf(seed_spec(h[0], h[1]), h.skip(2));
                    lemma_fold_push(seed_spec(h[0], h[1]), h.skip(2), p);
                    assert(h.push(p).skip(2) =~= h.skip(2).push(p));
                    assert(h.push(p)[0] == h[0] && h.push(p)[1] == h[1]);
                }
                r.expand(p);
                self.state = AccumState::Seeded(r);
            },
        }
        self.count = self.count + 1;
        self.hist = Ghost(h.push(p));
    }

    /// Hand out the finished box; with fewer than two points folded there is
    /// none, and the run is an insufficient-data failure.
    pub fn finish(self) -> (r: Result<Rect, BboxError>)
        requires
            self.wf(),
        ensures
            match r {
                Ok(rect) => self.hist@.len() >= 2 && rect == bbox_of_points(self.hist@),
                Err(e) => self.hist@.len() < 2 && (e matches BboxError::InsufficientData),
            },
    {
        match self.state {
            AccumState::Seeded(r) => Ok(r),
            _ => Err(BboxError::InsufficientData),
        }
    }
}

/// The whole fold in one call: the bounding box of a vector of points, or
/// the insufficient-data error when fewer than two are given.
pub fn compute_bbox(points: Vec<Point>) -> (r: Result<Rect, BboxError>)
    ensures
        match r {
            Ok(rect) => points@.len() >= 2 && rect == bbox_of_points(points@),
            Err(e) => points@.len() < 2 && (e matches BboxError::InsufficientData),
        },
{
    let ghost orig = points@;
    let n = points.len();
    let mut points = points;
    let mut acc = Accumulator::new();
    while points.len() > 0
        invariant
            acc.wf(),
            orig =~= acc.hist@ + points@,
            acc.hist@.len() + points@.len() == n,
        decreases points.len(),
    {
        let ghost prev = points@;
        let p = points.remove(0);
        proof {
            assert(prev =~= seq![p] + points@);
            assert(acc.hist@ + prev =~= acc.hist@.push(p) + points@);
        }
        acc.push(p);
    }
    proof {
        assert(orig =~= acc.hist@);
    }
    acc.finish()
}

} // verus!
