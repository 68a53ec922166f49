use vstd::prelude::*;

use crate::geometry::{
    derefed, filter_contained, lemma_derefed_add, lemma_derefed_push, lemma_filter_contained_add,
    lemma_filter_contained_count, lemma_filter_contained_push, lemma_filter_contained_sound,
    lemma_quad_in_parent, lemma_quads_fit, lemma_route, Error, Point2D, Rectangle,
};

verus! {

/// Most points a node stores directly; one more forces the point down into a
/// quadrant.
pub const MAX_CAPACITY: usize = 4;

/// A quadtree over a fixed boundary, as a tagged union: a terminal `Leaf`
/// holds only a bucket of points; once overfull it converts in place into a
/// `Root` that keeps the bucket it had at conversion time and owns four
/// always-present children, one per quadrant.
#[derive(Debug)]
pub enum QuadTree<T> {
    Leaf { boundary: Rectangle, points: Vec<Point2D<T>> },
    Root {
        boundary: Rectangle,
        points: Vec<Point2D<T>>,
        ne: Box<QuadTree<T>>,
        se: Box<QuadTree<T>>,
        sw: Box<QuadTree<T>>,
        nw: Box<QuadTree<T>>,
    },
}

impl<T> QuadTree<T> {
    /// The region this node is responsible for.
    pub open spec fn boundary(self) -> Rectangle {
        match self {
            QuadTree::Leaf { boundary, .. } => boundary,
            QuadTree::Root { boundary, .. } => boundary,
        }
    }

    /// The points this node stores directly.
    pub open spec fn bucket(self) -> Seq<Point2D<T>> {
        match self {
            QuadTree::Leaf { points, .. } => points@,
            QuadTree::Root { points, .. } => points@,
        }
    }

    /// Every point in the subtree, in pre-order: the bucket first, then the
    /// NE, SE, SW and NW subtrees.
    pub open spec fn points_seq(self) -> Seq<Point2D<T>>
        decreases self,
    {
        match self {
            QuadTree::Leaf { points, .. } => points@,
            QuadTree::Root { points, ne, se, sw, nw, .. } => points@ + ne.points_seq()
                + se.points_seq() + sw.points_seq() + nw.points_seq(),
        }
    }

    /// What a range query returns: the stored points inside `region`, in
    /// traversal order.
    pub open spec fn query_spec(self, region: Rectangle) -> Seq<Point2D<T>> {
        filter_contained(region, self.points_seq())
    }

    /// Well-formedness: the boundary is representable, the bucket respects
    /// the capacity and lies inside the boundary, an internal node's children
    /// cover exactly the four quadrants, and the total point count fits the
    /// machine.
    pub open spec fn wf(self) -> bool
        decreases self,
    {
        &&& self.boundary().fits()
        &&& self.bucket().len() <= MAX_CAPACITY
        &&& (forall|i: int|
            0 <= i < self.bucket().len() ==> self.boundary().contains_spec(
                (#[trigger] self.bucket()[i]).x,
                self.bucket()[i].y,
            ))
        &&& self.points_seq().len() <= usize::MAX
        &&& match self {
            QuadTree::Leaf { .. } => true,
            QuadTree::Root { boundary, ne, se, sw, nw, .. } => {
                &&& ne.boundary() == boundary.quad_ne()
                &&& se.boundary() == boundary.quad_se()
                &&& sw.boundary() == boundary.quad_sw()
                &&& nw.boundary() == boundary.quad_nw()
                &&& ne.wf()
                &&& se.wf()
                &&& sw.wf()
                &&& nw.wf()
            },
        }
    }

    /// The shape a terminal node takes when it subdivides: an internal node
    /// over the same boundary `b`, keeping the bucket `pts` as it stands,
    /// whose four children are empty terminal nodes over the quadrants.
    pub open spec fn is_fresh_subdivision(self, b: Rectangle, pts: Seq<Point2D<T>>) -> bool {
        match self {
            QuadTree::Leaf { .. } => false,
            QuadTree::Root { boundary, points, ne, se, sw, nw } => {
                &&& boundary == b
                &&& points@ == pts
                &&& (*ne) is Leaf
                &&& ne.boundary() == b.quad_ne()
                &&& ne.points_seq() == Seq::<Point2D<T>>::empty()
                &&& (*se) is Leaf
                &&& se.boundary() == b.quad_se()
                &&& se.points_seq() == Seq::<Point2D<T>>::empty()
                &&& (*sw) is Leaf
                &&& sw.boundary() == b.quad_sw()
                &&& sw.points_seq() == Seq::<Point2D<T>>::empty()
                &&& (*nw) is Leaf
                &&& nw.boundary() == b.quad_nw()
                &&& nw.points_seq() == Seq::<Point2D<T>>::empty()
            },
        }
    }

    /// How an internal node routes a point that cannot enter its bucket:
    /// `post` is `pre` with the point descended into the first quadrant, in
    /// the fixed NE, SE, SW, NW order, whose rectangle contains it — a point
    /// on a shared edge goes to the earliest such quadrant — while the
    /// boundary, the bucket and the other three children are untouched.
    pub open spec fn routed(pre: QuadTree<T>, post: QuadTree<T>, point: Point2D<T>) -> bool {
        match (pre, post) {
            (
                QuadTree::Root { boundary: b0, points: p0, ne: ne0, se: se0, sw: sw0, nw: nw0 },
                QuadTree::Root { boundary: b1, points: p1, ne: ne1, se: se1, sw: sw1, nw: nw1 },
            ) => {
                &&& b1 == b0
                &&& p1@ == p0@
                &&& if b0.quad_ne().contains_spec(point.x, point.y) {
                    ne1.points_seq().to_multiset() == ne0.points_seq().to_multiset().insert(point)
                        && se1 == se0 && sw1 == sw0 && nw1 == nw0
                } else if b0.quad_se().contains_spec(point.x, point.y) {
                    se1.points_seq().to_multiset() == se0.points_seq().to_multiset().insert(point)
                        && ne1 == ne0 && sw1 == sw0 && nw1 == nw0
                } else if b0.quad_sw().contains_spec(point.x, point.y) {
                    sw1.points_seq().to_multiset() == sw0.points_seq().to_multiset().insert(point)
                        && ne1 == ne0 && se1 == se0 && nw1 == nw0
                } else if b0.quad_nw().contains_spec(point.x, point.y) {
                    nw1.points_seq().to_multiset() == nw0.points_seq().to_multiset().insert(point)
                        && ne1 == ne0 && se1 == se0 && sw1 == sw0
                } else {
                    false
                }
            },
            _ => false,
        }
    }

    /// An empty terminal node over `boundary`.
    pub fn new(boundary: Rectangle) -> (t: Self)
        requires
            boundary.fits(),
        ensures
            t.wf(),
            t is Leaf,
            t.boundary() == boundary,
            t.points_seq() == Seq::<Point2D<T>>::empty(),
    {
        QuadTree::Leaf { boundary, points: Vec::new() }
    }

    /// The number of points stored anywhere in the subtree.
    pub fn count(&self) -> (n: usize)
        requires
            self.wf(),
        ensures
            n == self.points_seq().len(),
        decreases self,
    {
        match self {
            QuadTree::Leaf { points, .. } => points.len(),
            QuadTree::Root { ne, se, sw, nw, points, .. } => points.len() + ne.count()
                + se.count() + sw.count() + nw.count(),
        }
    }

    /// Whether this node's boundary contains the coordinates.
    fn covers(&self, x: i64, y: i64) -> (r: bool)
        ensures
            r == self.boundary().contains_spec(x, y),
    {
        match self {
            QuadTree::Leaf { boundary, .. } => boundary.contains(x, y),
            QuadTree::Root { boundary, .. } => boundary.contains(x, y),
        }
    }

    /// Converts a terminal node in place into an internal one: the bucket is
    /// kept as it stands, and four empty children are created over the four
    /// quadrants of the boundary. An internal node is left unchanged.
    fn subdivide(&mut self)
        requires
            old(self).wf(),
        ensures
            final(self).wf(),
            (*final(self)) is Root,
            final(self).boundary() == old(self).boundary(),
            final(self).bucket() == old(self).bucket(),
            final(self).points_seq() == old(self).points_seq(),
            (*old(self)) is Leaf ==> final(self).is_fresh_subdivision(
                old(self).boundary(),
                old(self).bucket(),
            ),
            (*old(self)) is Root ==> *final(self) == *old(self),
    {
        match self {
            QuadTree::Leaf { boundary, points } => {
                let b: Rectangle = *boundary;
                proof {
                    lemma_quads_fit(b);
                }
                let mut pts: Vec<Point2D<T>> = Vec::new();
                core::mem::swap(points, &mut pts);
                *self = QuadTree::Root {
                    points: pts,
                    boundary: b,
                    ne: Box::new(QuadTree::new(b.new_ne())),
                    se: Box::new(QuadTree::new(b.new_se())),
                    sw: Box::new(QuadTree::new(b.new_sw())),
                    nw: Box::new(QuadTree::new(b.new_nw())),
                };
                proof {
                    assert(self.points_seq() =~= old(self).points_seq());
                }
            }
            _ => {},
        }
    }

    /// Stores `point`, or reports `OutOfBounds` when it lies outside this
    /// node's boundary, in which case the tree is left untouched.
    ///
    /// Once a node has converted to internal, its bucket stays as it was at
    /// conversion time, and every further point descends into a child; the
    /// quadrants are tried in the fixed order NE, SE, SW, NW, so a point on a
    /// shared edge descends into the first quadrant that contains it.
    pub fn insert(&mut self, point: Point2D<T>) -> (r: Result<(), Error>)
        requires
            old(self).wf(),
            old(self).points_seq().len() < usize::MAX,
        ensures
            final(self).wf(),
            final(self).boundary() == old(self).boundary(),
            old(self).boundary().contains_spec(point.x, point.y) ==> r == Ok::<(), Error>(()),
            !old(self).boundary().contains_spec(point.x, point.y) ==> r == Err::<(), Error>(
                Error::OutOfBounds,
            ) && *final(self) == *old(self),
            r is Ok ==> final(self).points_seq().to_multiset() == old(
                self,
            ).points_seq().to_multiset().insert(point) && final(self).points_seq().len() == old(
                self,
            ).points_seq().len() + 1,
            (*old(self)) is Leaf && old(self).boundary().contains_spec(point.x, point.y) && old(
                self,
            ).bucket().len() < MAX_CAPACITY ==> (*final(self)) is Leaf && final(self).bucket()
                == old(self).bucket().push(point),
            (*old(self)) is Root && old(self).boundary().contains_spec(point.x, point.y) && old(
                self,
            ).bucket().len() >= MAX_CAPACITY ==> Self::routed(*old(self), *final(self), point),
        decreases old(self).points_seq().len(), (if (*old(self)) is Leaf { 1int } else { 0int }),
    {
        broadcast use vstd::seq_lib::group_to_multiset_ensures;
        broadcast use vstd::seq_lib::lemma_multiset_commutative;
        broadcast use vstd::multiset::group_multiset_axioms;
        broadcast use vstd::multiset::group_multiset_properties;

        match self {
            QuadTree::Leaf { boundary, points } => {
                if !boundary.contains(point.x, point.y) {
                    return Err(Error::OutOfBounds);
                } else if points.len() == MAX_CAPACITY {
                    self.subdivide();
                    return self.insert(point);
                } else {
                    points.push(point);
                    return Ok(());
                }
            },
            QuadTree::Root { ne, se, sw, nw, points, boundary } => {
                if !boundary.contains(point.x, point.y) {
                    return Err(Error::OutOfBounds);
                } else if points.len() < MAX_CAPACITY {
                    points.push(point);
                    return Ok(());
                } else if ne.covers(point.x, point.y) {
                    ne.insert(point)?;
                    return Ok(());
                } else if se.covers(point.x, point.y) {
                    se.insert(point)?;
                    return Ok(());
                } else if sw.covers(point.x, point.y) {
                    sw.insert(point)?;
                    return Ok(());
                } else if nw.covers(point.x, point.y) {
                    nw.insert(point)?;
                    return Ok(());
                }
                proof {
                    lemma_route(old(self).boundary(), point.x, point.y);
                    assert(false);
                }
                return Err(Error::OutOfBounds);
            },
        }
    }

    /// Every stored point whose coordinates `boundary` contains, in pre-order:
    /// this node's bucket first, then the NE, SE, SW and NW subtrees. The
    /// returned references alias the tree's own storage.
    pub fn query(&self, boundary: Rectangle) -> (found: Vec<&Point2D<T>>)
        ensures
            derefed(found@) == self.query_spec(boundary),
        decreases self,
    {
        let mut result: Vec<&Point2D<T>> = Vec::new();
        match self {
            QuadTree::Leaf { points, .. } => {
                let mut i: usize = 0;
                while i < points.len()
                    invariant
                        i <= points.len(),
                        derefed(result@) == filter_contained(boundary, points@.take(i as int)),
                    decreases points.len() - i,
                {
                    let p = &points[i];
                    proof {
                        assert(points@.take(i + 1).drop_last() =~= points@.take(i as int));
                        lemma_filter_contained_push(boundary, points@.take(i as int), points@[i as int]);
                        lemma_derefed_push(result@, p);
                    }
                    if boundary.contains(p.x, p.y) {
                        result.push(p);
                    }
                    i += 1;
                }
                proof {
                    assert(points@.take(points@.len() as int) =~= points@);
                }
            },
            QuadTree::Root { ne, se, sw, nw, points, .. } => {
                let mut i: usize = 0;
                while i < points.len()
                    invariant
                        i <= points.len(),
                        derefed(result@) == filter_contained(boundary, points@.take(i as int)),
                    decreases points.len() - i,
                {
                    let p = &points[i];
                    proof {
                        assert(points@.take(i + 1).drop_last() =~= points@.take(i as int));
                        lemma_filter_contained_push(boundary, points@.take(i as int), points@[i as int]);
                        lemma_derefed_push(result@, p);
                    }
                    if boundary.contains(p.x, p.y) {
                        result.push(p);
                    }
                    i += 1;
                }
                proof {
                    assert(points@.take(points@.len() as int) =~= points@);
                }
                let mut ne_found = ne.query(boundary);
                proof {
                    lemma_derefed_add(result@, ne_found@);
                    lemma_filter_contained_add(boundary, points@, ne.points_seq());
                }
                result.append(&mut ne_found);
                let mut se_found = se.query(boundary);
                proof {
                    lemma_derefed_add(result@, se_found@);
                    lemma_filter_contained_add(
                        boundary,
                        points@ + ne.points_seq(),
                        se.points_seq(),
                    );
                }
                result.append(&mut se_found);
                let mut sw_found = sw.query(boundary);
                proof {
                    lemma_derefed_add(result@, sw_found@);
                    lemma_filter_contained_add(
                        boundary,
                        points@ + ne.points_seq() + se.points_seq(),
                        sw.points_seq(),
                    );
                }
                result.append(&mut sw_found);
                let mut nw_found = nw.query(boundary);
                proof {
                    lemma_derefed_add(result@, nw_found@);
                    lemma_filter_contained_add(
                        boundary,
                        points@ + ne.points_seq() + se.points_seq() + sw.points_seq(),
                        nw.points_seq(),
                    );
                }
                result.append(&mut nw_found);
            },
        }
        result
    }
}

/// Containment law of the range query: every returned point lies inside the
/// queried region, and each stored point inside the region is returned
/// exactly as often as it is stored — no duplicates, no omissions.
pub proof fn lemma_query_exact<T>(tree: QuadTree<T>, region: Rectangle, p: Point2D<T>)
    ensures
        forall|i: int|
            0 <= i < tree.query_spec(region).len() ==> region.contains_spec(
                (#[trigger] tree.query_spec(region)[i]).x,
                tree.query_spec(region)[i].y,
            ),
        tree.query_spec(region).to_multiset().count(p) == (if region.contains_spec(p.x, p.y) {
            tree.points_seq().to_multiset().count(p)
        } else {
            0
        }),
{
    lemma_filter_contained_sound(region, tree.points_seq());
    lemma_filter_contained_count(region, tree.points_seq(), p);
}

/// Querying is idempotent: two range queries with the same region on an
/// unmodified tree return the very same sequence of points, and so the same
/// multiset.
pub proof fn lemma_query_idempotent<T>(
    tree: QuadTree<T>,
    region: Rectangle,
    first: Seq<Point2D<T>>,
    second: Seq<Point2D<T>>,
)
    requires
        first == tree.query_spec(region),
        second == tree.query_spec(region),
    ensures
        first == second,
        first.to_multiset() == second.to_multiset(),
{
}

/// The containment invariant of the structure itself: every point stored
/// anywhere in a well-formed subtree lies inside that subtree's boundary.
pub proof fn lemma_stored_points_in_boundary<T>(tree: QuadTree<T>)
    requires
        tree.wf(),
    ensures
        forall|i: int|
            0 <= i < tree.points_seq().len() ==> tree.boundary().contains_spec(
                (#[trigger] tree.points_seq()[i]).x,
                tree.points_seq()[i].y,
            ),
    decreases tree,
{
    match tree {
        QuadTree::Leaf { .. } => {},
        QuadTree::Root { boundary, points, ne, se, sw, nw } => {
            lemma_stored_points_in_boundary(*ne);
            lemma_stored_points_in_boundary(*se);
            lemma_stored_points_in_boundary(*sw);
            lemma_stored_points_in_boundary(*nw);
            let s = tree.points_seq();
            assert forall|i: int| 0 <= i < s.len() implies boundary.contains_spec(
                (#[trigger] s[i]).x,
                s[i].y,
            ) by {
                lemma_quad_in_parent(boundary, s[i].x, s[i].y);
                let a = points@;
                let b = a + ne.points_seq();
                let c = b + se.points_seq();
                let d = c + sw.points_seq();
                if i < a.len() {
                    assert(s[i] == a[i]);
                } else if i < b.len() {
                    assert(s[i] == ne.points_seq()[i - a.len()]);
                } else if i < c.len() {
                    assert(s[i] == se.points_seq()[i - b.len()]);
                } else if i < d.len() {
                    assert(s[i] == sw.points_seq()[i - c.len()]);
                } else {
                    assert(s[i] == nw.points_seq()[i - d.len()]);
                }
            }
        },
    }
}

} // verus!
