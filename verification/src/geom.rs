//! Points and axis-aligned bounding rectangles over keyed axis values.

use vstd::prelude::*;
use vstd::string::StringExecFns;

verus! {

/// One axis value of a coordinate: a totally ordered integer key together
/// with the decimal text that is printed for the value.
///
/// The key is any order-preserving integer encoding of the numeric value
/// (for IEEE doubles, the usual total-order bit encoding); the text is the
/// value's decimal rendering. The geometry below compares keys only and
/// carries the text along unchanged, so all min/max decisions are made here
/// while the numeric encoding stays with the caller.
#[derive(Debug)]
pub struct Coord {
    pub key: i64,
    pub text: String,
}

impl Coord {
    pub fn new(key: i64, text: String) -> (c: Coord)
        ensures
            c.key == key,
            c.text == text,
    {
        Coord { key, text }
    }
}

/// A 2D coordinate: `x` is the longitude axis, `y` the latitude axis.
#[derive(Debug)]
pub struct Point {
    pub x: Coord,
    pub y: Coord,
}

impl Point {
    pub fn new(x: Coord, y: Coord) -> (p: Point)
        ensures
            p.x == x,
            p.y == y,
    {
        Point { x, y }
    }

    pub fn x(&self) -> (c: &Coord)
        ensures
            *c == self.x,
    {
        &self.x
    }

    pub fn y(&self) -> (c: &Coord)
        ensures
            *c == self.y,
    {
        &self.y
    }
}

/// An axis-aligned rectangle given by its two extreme corners.
#[derive(Debug)]
pub struct Rect {
    pub min: Point,
    pub max: Point,
}

/// The rectangle seeded from two points: per axis, the smaller-keyed value
/// becomes the minimum and the larger-keyed one the maximum; on equal keys
/// the first point supplies the minimum.
pub open spec fn seed_spec(a: Point, b: Point) -> Rect {
    Rect {
        min: Point {
            x: if a.x.key <= b.x.key { a.x } else { b.x },
            y: if a.y.key <= b.y.key { a.y } else { b.y },
        },
        max: Point {
            x: if a.x.key <= b.x.key { b.x } else { a.x },
            y: if a.y.key <= b.y.key { b.y } else { a.y },
        },
    }
}

/// One expansion step: per axis, a value beyond the maximum raises the
/// maximum, else one below the minimum lowers the minimum, else the axis is
/// untouched. The two tests are mutually exclusive by construction.
pub open spec fn expand_spec(r: Rect, p: Point) -> Rect {
    Rect {
        min: Point {
            x: if p.x.key > r.max.x.key {
                r.min.x
            } else if p.x.key < r.min.x.key {
                p.x
            } else {
                r.min.x
            },
            y: if p.y.key > r.max.y.key {
                r.min.y
            } else if p.y.key < r.min.y.key {
                p.y
            } else {
                r.min.y
            },
        },
        max: Point {
            x: if p.x.key > r.max.x.key {
                p.x
            } else {
                r.max.x
            },
            y: if p.y.key > r.max.y.key {
                p.y
            } else {
                r.max.y
            },
        },
    }
}

/// Folding a sequence of points into a rectangle, one expansion at a time,
/// left to right.
pub open spec fn fold_spec(r: Rect, pts: Seq<Point>) -> Rect
    decreases pts.len(),
{
    if pts.len() == 0 {
        r
    } else {
        fold_spec(expand_spec(r, pts[0]), pts.drop_first())
    }
}

impl Rect {
    /// The rectangle's standing invariant: minima do not exceed maxima.
    pub open spec fn wf(self) -> bool {
        self.min.x.key <= self.max.x.key && self.min.y.key <= self.max.y.key
    }

    /// Both of the point's axis keys lie inside the rectangle, inclusively.
    pub open spec fn covers(self, p: Point) -> bool {
        &&& self.min.x.key <= p.x.key <= self.max.x.key
        &&& self.min.y.key <= p.y.key <= self.max.y.key
    }

    /// The point's axis keys lie strictly inside the rectangle.
    pub open spec fn covers_strictly(self, p: Point) -> bool {
        &&& self.min.x.key < p.x.key < self.max.x.key
        &&& self.min.y.key < p.y.key < self.max.y.key
    }

    pub fn new(a: Point, b: Point) -> (r: Rect)
        ensures
            r == seed_spec(a, b),
            r.wf(),
            r.covers(a),
            r.covers(b),
            r.min.x.key == vstd::math::min(a.x.key as int, b.x.key as int),
            r.min.y.key == vstd::math::min(a.y.key as int, b.y.key as int),
            r.max.x.key == vstd::math::max(a.x.key as int, b.x.key as int),
            r.max.y.key == vstd::math::max(a.y.key as int, b.y.key as int),
    {
        let Point { x: ax, y: ay } = a;
        let Point { x: bx, y: by } = b;
        let (min_x, max_x) = if ax.key <= bx.key { (ax, bx) } else { (bx, ax) };
        let (min_y, max_y) = if ay.key <= by.key { (ay, by) } else { (by, ay) };
        Rect { min: Point { x: min_x, y: min_y }, max: Point { x: max_x, y: max_y } }
    }

    pub fn expand(&mut self, point: Point)
        requires
            old(self).wf(),
        ensures
            *final(self) == expand_spec(*old(self), point),
            final(self).wf(),
            final(self).covers(point),
            final(self).min.x.key == vstd::math::min(old(self).min.x.key as int, point.x.key as int),
            final(self).min.y.key == vstd::math::min(old(self).min.y.key as int, point.y.key as int),
            final(self).max.x.key == vstd::math::max(old(self).max.x.key as int, point.x.key as int),
            final(self).max.y.key == vstd::math::max(old(self).max.y.key as int, point.y.key as int),
    {
        let Point { x: px, y: py } = point;
        if px.key > self.max.x.key {
            self.max.x = px;
        } else if px.key < self.min.x.key {
            self.min.x = px;
        }
        if py.key > self.max.y.key {
            self.max.y = py;
        } else if py.key < self.min.y.key {
            self.min.y = py;
        }
    }

    /// Renders the box as `left,bottom,right,top`: the minimum longitude,
    /// minimum latitude, maximum longitude and maximum latitude texts joined
    /// by commas, in exactly that fixed order.
    pub fn osm_bbox_fmt(&self) -> (out: String)
        ensures
            out@ == self.min.x.text@ + seq![','] + self.min.y.text@ + seq![',']
                + self.max.x.text@ + seq![','] + self.max.y.text@,
    {
        proof {
            reveal_strlit(",");
        }
        let mut out = String::new();
        out.append(self.min.x.text.as_str());
        out.append(",");
        out.append(self.min.y.text.as_str());
        out.append(",");
        out.append(self.max.x.text.as_str());
        out.append(",");
        out.append(self.max.y.text.as_str());
        proof {
            assert(","@ =~= seq![',']);
            assert(out@ =~= self.min.x.text@ + seq![','] + self.min.y.text@ + seq![',']
                + self.max.x.text@ + seq![','] + self.max.y.text@);
        }
        out
    }

    pub fn min(&self) -> (p: &Point)
        ensures
            *p == self.min,
    {
        &self.min
    }

    pub fn max(&self) -> (p: &Point)
        ensures
            *p == self.max,
    {
        &self.max
    }
}

/// Two rectangles with the same extent keys on both axes. The extent is what
/// the fold computes; the texts ride along with whichever point supplied an
/// extreme.
pub open spec fn same_extent(r1: Rect, r2: Rect) -> bool {
    &&& r1.min.x.key == r2.min.x.key
    &&& r1.min.y.key == r2.min.y.key
    &&& r1.max.x.key == r2.max.x.key
    &&& r1.max.y.key == r2.max.y.key
}

/// A fold preserves the rectangle invariant.
pub proof fn lemma_fold_wf(r: Rect, pts: Seq<Point>)
    requires
        r.wf(),
    ensures
        fold_spec(r, pts).wf(),
    decreases pts.len(),
{
    if pts.len() > 0 {
        lemma_fold_wf(expand_spec(r, pts[0]), pts.drop_first());
    }
}

/// Law: expansion is monotone. A fold only ever lowers the minima and raises
/// the maxima of the rectangle it starts from.
pub proof fn lemma_fold_widens(r: Rect, pts: Seq<Point>)
    requires
        r.wf(),
    ensures
        fold_spec(r, pts).wf(),
        fold_spec(r, pts).min.x.key <= r.min.x.key,
        fold_spec(r, pts).min.y.key <= r.min.y.key,
        fold_spec(r, pts).max.x.key >= r.max.x.key,
        fold_spec(r, pts).max.y.key >= r.max.y.key,
    decreases pts.len(),
{
    if pts.len() > 0 {
        lemma_fold_widens(expand_spec(r, pts[0]), pts.drop_first());
    }
}

/// Folding a concatenation is folding the two halves in turn.
pub proof fn lemma_fold_append(r: Rect, a: Seq<Point>, b: Seq<Point>)
    ensures
        fold_spec(r, a + b) == fold_spec(fold_spec(r, a), b),
    decreases a.len(),
{
    if a.len() == 0 {
        assert(a + b =~= b);
    } else {
        assert((a + b).drop_first() =~= a.drop_first() + b);
        lemma_fold_append(expand_spec(r, a[0]), a.drop_first(), b);
    }
}

/// Folding one more point is one expansion of the folded rectangle.
pub proof fn lemma_fold_push(r: Rect, pts: Seq<Point>, p: Point)
    ensures
        fold_spec(r, pts.push(p)) == expand_spec(fold_spec(r, pts), p),
{
    assert(pts.push(p) =~= pts + seq![p]);
    lemma_fold_append(r, pts, seq![p]);
    let x = fold_spec(r, pts);
    assert(fold_spec(x, seq![p]) == fold_spec(expand_spec(x, p), seq![p].drop_first()));
    assert(seq![p].drop_first().len() == 0);
    assert(fold_spec(expand_spec(x, p), seq![p].drop_first()) == expand_spec(x, p));
}

/// Law: as more points are folded, the minima are non-increasing and the
/// maxima non-decreasing: the box after the whole sequence is at least as
/// wide as after any prefix of it.
pub proof fn lemma_fold_monotone(r: Rect, pts: Seq<Point>, k: int)
    requires
        r.wf(),
        0 <= k <= pts.len(),
    ensures
        fold_spec(r, pts).min.x.key <= fold_spec(r, pts.take(k)).min.x.key,
        fold_spec(r, pts).min.y.key <= fold_spec(r, pts.take(k)).min.y.key,
        fold_spec(r, pts).max.x.key >= fold_spec(r, pts.take(k)).max.x.key,
        fold_spec(r, pts).max.y.key >= fold_spec(r, pts.take(k)).max.y.key,
{
    assert(pts =~= pts.take(k) + pts.skip(k));
    lemma_fold_append(r, pts.take(k), pts.skip(k));
    lemma_fold_wf(r, pts.take(k));
    lemma_fold_widens(fold_spec(r, pts.take(k)), pts.skip(k));
}

/// Law: the folded box covers, inclusively on both axes, every point that
/// was folded into it.
pub proof fn lemma_fold_covers(r: Rect, pts: Seq<Point>, i: int)
    requires
        r.wf(),
        0 <= i < pts.len(),
    ensures
        fold_spec(r, pts).covers(pts[i]),
    decreases pts.len(),
{
    if i == 0 {
        lemma_fold_widens(expand_spec(r, pts[0]), pts.drop_first());
    } else {
        lemma_fold_covers(expand_spec(r, pts[0]), pts.drop_first(), i - 1);
    }
}

/// Law: expanding a box with a point strictly inside it leaves the box
/// unchanged.
pub proof fn lemma_expand_interior(r: Rect, p: Point)
    requires
        r.covers_strictly(p),
    ensures
        expand_spec(r, p) == r,
{
}

/// Expansion reads only the extent keys, so equal extents stay equal.
pub proof fn lemma_expand_congr(r1: Rect, r2: Rect, p: Point)
    requires
        same_extent(r1, r2),
    ensures
        same_extent(expand_spec(r1, p), expand_spec(r2, p)),
{
}

/// Two expansion steps commute, up to the extent keys.
pub proof fn lemma_expand_comm(r: Rect, p: Point, q: Point)
    requires
        r.wf(),
    ensures
        same_extent(
            expand_spec(expand_spec(r, p), q),
            expand_spec(expand_spec(r, q), p),
        ),
{
}

/// Folding the same points onto rectangles of equal extent gives equal
/// extents.
pub proof fn lemma_fold_congr(r1: Rect, r2: Rect, pts: Seq<Point>)
    requires
        same_extent(r1, r2),
    ensures
        same_extent(fold_spec(r1, pts), fold_spec(r2, pts)),
    decreases pts.len(),
{
    if pts.len() > 0 {
        lemma_expand_congr(r1, r2, pts[0]);
        lemma_fold_congr(expand_spec(r1, pts[0]), expand_spec(r2, pts[0]), pts.drop_first());
    }
}

/// Any one point of a fold may be expanded first without changing the
/// resulting extent.
pub proof fn lemma_fold_pull(r: Rect, pts: Seq<Point>, j: int)
    requires
        r.wf(),
        0 <= j < pts.len(),
    ensures
        same_extent(
            fold_spec(r, pts),
            fold_spec(expand_spec(r, pts[j]), pts.remove(j)),
        ),
    decreases j,
{
    if j == 0 {
        assert(pts.remove(0) =~= pts.drop_first());
    } else {
        let r0 = expand_spec(r, pts[0]);
        let t = pts.drop_first();
        lemma_fold_pull(r0, t, j - 1);
        lemma_expand_comm(r, pts[0], pts[j]);
        lemma_fold_congr(
            expand_spec(r0, pts[j]),
            expand_spec(expand_spec(r, pts[j]), pts[0]),
            t.remove(j - 1),
        );
        assert(pts.remove(j).drop_first() =~= t.remove(j - 1));
        assert(fold_spec(expand_spec(r, pts[j]), pts.remove(j))
            == fold_spec(expand_spec(expand_spec(r, pts[j]), pts[0]), t.remove(j - 1)));
    }
}

/// Law: order independence. Folding the same multiset of points, in any
/// order, onto the same starting rectangle yields the same extent.
pub proof fn lemma_fold_permutation(r: Rect, pts1: Seq<Point>, pts2: Seq<Point>)
    requires
        r.wf(),
        pts1.to_multiset() == pts2.to_multiset(),
    ensures
        same_extent(fold_spec(r, pts1), fold_spec(r, pts2)),
    decreases pts1.len(),
{
    broadcast use vstd::seq_lib::group_to_multiset_ensures;

    if pts1.len() == 0 {
        assert(pts2.len() == pts2.to_multiset().len());
    } else {
        let p = pts1[0];
        assert(pts1.contains(p));
        assert(pts2.to_multiset().count(p) > 0);
        assert(pts2.contains(p));
        let j = choose|j: int| 0 <= j < pts2.len() && pts2[j] == p;
        lemma_fold_pull(r, pts2, j);
        assert(pts1.drop_first() =~= pts1.remove(0));
        assert(pts1.remove(0).to_multiset() =~= pts1.to_multiset().remove(p));
        assert(pts2.remove(j).to_multiset() =~= pts2.to_multiset().remove(p));
        lemma_fold_permutation(expand_spec(r, p), pts1.drop_first(), pts2.remove(j));
    }
}

} // verus!
