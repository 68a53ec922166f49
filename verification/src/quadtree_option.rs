use vstd::prelude::*;

use crate::geometry::{
    derefed, filter_contained, lemma_derefed_add, lemma_derefed_push, lemma_filter_contained_add,
    lemma_filter_contained_count, lemma_filter_contained_push, lemma_filter_contained_sound,
    lemma_concat_insert_left, lemma_concat_insert_right, lemma_quad_in_parent, lemma_quads_fit,
    lemma_route, Error, Point2D, Rectangle,
};

verus! {

/// Most points a node stores directly; one more forces the point down into a
/// quadrant.
pub const MAX_CAPACITY: usize = 4;

/// A quadtree over a fixed boundary, with a uniform node shape: every node
/// has a bucket and four independently optional child slots, created lazily
/// the first time a point must descend into that quadrant.
#[derive(Debug)]
pub struct QuadTree<T> {
    boundary: Rectangle,
    points: Vec<Point2D<T>>,
    ne: Option<Box<QuadTree<T>>>,
    se: Option<Box<QuadTree<T>>>,
    sw: Option<Box<QuadTree<T>>>,
    nw: Option<Box<QuadTree<T>>>,
}

impl<T> QuadTree<T> {
    /// The region this node is responsible for.
    pub closed spec fn boundary(self) -> Rectangle {
        self.boundary
    }

    /// The points this node stores directly.
    pub closed spec fn bucket(self) -> Seq<Point2D<T>> {
        self.points@
    }

    /// The four child slots, in NE, SE, SW, NW order. Opaque outside this
    /// module; contracts use it to state that the children are untouched.
    pub closed spec fn children(self) -> (
        Option<Box<QuadTree<T>>>,
        Option<Box<QuadTree<T>>>,
        Option<Box<QuadTree<T>>>,
        Option<Box<QuadTree<T>>>,
    ) {
        (self.ne, self.se, self.sw, self.nw)
    }

    /// Every point in the subtree, in pre-order: the bucket first, then the
    /// NE, SE, SW and NW subtrees, absent children contributing nothing.
    pub closed spec fn points_seq(self) -> Seq<Point2D<T>>
        decreases self,
    {
        self.points@ + (match self.ne {
            Some(c) => c.points_seq(),
            None => Seq::<Point2D<T>>::empty(),
        }) + (match self.se {
            Some(c) => c.points_seq(),
            None => Seq::<Point2D<T>>::empty(),
        }) + (match self.sw {
            Some(c) => c.points_seq(),
            None => Seq::<Point2D<T>>::empty(),
        }) + (match self.nw {
            Some(c) => c.points_seq(),
            None => Seq::<Point2D<T>>::empty(),
        })
    }

    /// What a range query returns: the stored points inside `region`, in
    /// traversal order.
    pub open spec fn query_spec(self, region: Rectangle) -> Seq<Point2D<T>> {
        filter_contained(region, self.points_seq())
    }

    /// Well-formedness: the boundary is representable, the bucket respects
    /// the capacity and lies inside the boundary, each existing child covers
    /// exactly its quadrant, and the total point count fits the machine.
    pub closed spec fn wf(self) -> bool
        decreases self,
    {
        &&& self.boundary.fits()
        &&& self.points@.len() <= MAX_CAPACITY
        &&& (forall|i: int|
            0 <= i < self.points@.len() ==> self.boundary.contains_spec(
                (#[trigger] self.points@[i]).x,
                self.points@[i].y,
            ))
        &&& self.points_seq().len() <= usize::MAX
        &&& match self.ne {
            Some(c) => c.boundary == self.boundary.quad_ne() && c.wf(),
            None => true,
        }
        &&& match self.se {
            Some(c) => c.boundary == self.boundary.quad_se() && c.wf(),
            None => true,
        }
        &&& match self.sw {
            Some(c) => c.boundary == self.boundary.quad_sw() && c.wf(),
            None => true,
        }
        &&& match self.nw {
            Some(c) => c.boundary == self.boundary.quad_nw() && c.wf(),
            None => true,
        }
    }

    /// An empty node over `boundary`, with no children yet.
    pub fn new(boundary: Rectangle) -> (t: Self)
        requires
            boundary.fits(),
        ensures
            t.wf(),
            t.boundary() == boundary,
            t.points_seq() == Seq::<Point2D<T>>::empty(),
    {
        let t = QuadTree { boundary, points: Vec::new(), ne: None, se: None, sw: None, nw: None };
        proof {
            assert(t.points_seq() =~= Seq::<Point2D<T>>::empty());
        }
        t
    }

    /// The number of points stored anywhere in the subtree.
    pub fn count(&self) -> (n: usize)
        requires
            self.wf(),
        ensures
            n == self.points_seq().len(),
        decreases self,
    {
        let mut n = self.points.len();
        if let Some(c) = &self.ne {
            n = n + c.count();
        }
        if let Some(c) = &self.se {
            n = n + c.count();
        }
        if let Some(c) = &self.sw {
            n = n + c.count();
        }
        if let Some(c) = &self.nw {
            n = n + c.count();
        }
        n
    }

    /// Stores `point`, or reports `OutOfBounds` when it lies outside this
    /// node's boundary, in which case the tree is left untouched.
    ///
    /// A node's bucket keeps accepting points up to capacity even after
    /// children exist; only a full bucket routes the point down. The quadrant
    /// is chosen by comparing against the midlines with strict `less than`
    /// semantics, so a point exactly on a midline falls to the east or south
    /// side; the child is created on first use.
    #[verifier::rlimit(50)]
    pub fn insert(&mut self, point: Point2D<T>) -> (r: Result<(), Error>)
        requires
            old(self).wf(),
            old(self).points_seq().len() < usize::MAX,
        ensures
            final(self).wf(),
            final(self).boundary() == old(self).boundary(),
            old(self).boundary().contains_spec(point.x, point.y) ==> r == Ok::<(), Error>(()),
            !old(self).boundary().contains_spec(point.x, point.y) ==> r == Err::<(), Error>(
                Error::OutOfBounds,
            ) && *final(self) == *old(self),
            r is Ok ==> final(self).points_seq().to_multiset() == old(
                self,
            ).points_seq().to_multiset().insert(point) && final(self).points_seq().len() == old(
                self,
            ).points_seq().len() + 1,
            old(self).boundary().contains_spec(point.x, point.y) && old(self).bucket().len()
                < MAX_CAPACITY ==> final(self).bucket() == old(self).bucket().push(point)
                && final(self).children() == old(self).children(),
            old(self).boundary().contains_spec(point.x, point.y) && old(self).bucket().len()
                >= MAX_CAPACITY ==> final(self).bucket() == old(self).bucket(),
        decreases old(self).points_seq().len(),
    {
        broadcast use vstd::seq_lib::group_to_multiset_ensures;

        let ghost b0 = self.points@;
        let ghost ne0 = match &self.ne {
            Some(c) => c.points_seq(),
            None => Seq::<Point2D<T>>::empty(),
        };
        let ghost se0 = match &self.se {
            Some(c) => c.points_seq(),
            None => Seq::<Point2D<T>>::empty(),
        };
        let ghost sw0 = match &self.sw {
            Some(c) => c.points_seq(),
            None => Seq::<Point2D<T>>::empty(),
        };
        let ghost nw0 = match &self.nw {
            Some(c) => c.points_seq(),
            None => Seq::<Point2D<T>>::empty(),
        };

        if !self.boundary.contains(point.x, point.y) {
            return Err(Error::OutOfBounds);
        }
        if self.points.len() < MAX_CAPACITY {
            self.points.push(point);
            proof {
                lemma_concat_insert_left(b0, b0.push(point), ne0, point);
                lemma_concat_insert_left(b0 + ne0, b0.push(point) + ne0, se0, point);
                lemma_concat_insert_left(b0 + ne0 + se0, b0.push(point) + ne0 + se0, sw0, point);
                lemma_concat_insert_left(
                    b0 + ne0 + se0 + sw0,
                    b0.push(point) + ne0 + se0 + sw0,
                    nw0,
                    point,
                );
                assert(self.points_seq() == b0.push(point) + ne0 + se0 + sw0 + nw0);
                assert(old(self).points_seq() == b0 + ne0 + se0 + sw0 + nw0);
            }
            return Ok(());
        }
        // The bucket is full: the point descends into a quadrant, whose node
        // is created the first time that quadrant is used.
        let half_width = self.boundary.width / 2;
        let half_height = self.boundary.height / 2;
        proof {
            lemma_quads_fit(self.boundary);
            lemma_route(self.boundary, point.x, point.y);
        }
        let half_x: i64 = (self.boundary.x as i128 + half_width as i128) as i64;
        let half_y: i64 = (self.boundary.y as i128 + half_height as i128) as i64;

        if point.x < half_x {
            if point.y < half_y {
                if self.nw.is_none() {
                    self.nw = Some(Box::new(QuadTree::new(self.boundary.new_nw())));
                }
                let mut child = self.nw.take().unwrap();
                let res = (&mut *child).insert(point);
                self.nw = Some(child);
                proof {
                    if res is Ok {
                        let nwp = match &self.nw {
                            Some(c) => c.points_seq(),
                            None => Seq::<Point2D<T>>::empty(),
                        };
                        lemma_concat_insert_right(b0 + ne0 + se0 + sw0, nw0, nwp, point);
                        assert(self.points_seq() == b0 + ne0 + se0 + sw0 + nwp);
                        assert(old(self).points_seq() == b0 + ne0 + se0 + sw0 + nw0);
                    }
                }
                return res;
            } else {
                if self.sw.is_none() {
                    self.sw = Some(Box::new(QuadTree::new(self.boundary.new_sw())));
                }
                let mut child = self.sw.take().unwrap();
                let res = (&mut *child).insert(point);
                self.sw = Some(child);
                proof {
                    if res is Ok {
                        let swp = match &self.sw {
                            Some(c) => c.points_seq(),
                            None => Seq::<Point2D<T>>::empty(),
                        };
                        lemma_concat_insert_right(b0 + ne0 + se0, sw0, swp, point);
                        lemma_concat_insert_left(
                            b0 + ne0 + se0 + sw0,
                            b0 + ne0 + se0 + swp,
                            nw0,
                            point,
                        );
                        assert(self.points_seq() == b0 + ne0 + se0 + swp + nw0);
                        assert(old(self).points_seq() == b0 + ne0 + se0 + sw0 + nw0);
                    }
                }
                return res;
            }
        } else {
            if point.y < half_y {
                if self.ne.is_none() {
                    self.ne = Some(Box::new(QuadTree::new(self.boundary.new_ne())));
                }
                let mut child = self.ne.take().unwrap();
                let res = (&mut *child).insert(point);
                self.ne = Some(child);
                proof {
                    if res is Ok {
                        let nep = match &self.ne {
                            Some(c) => c.points_seq(),
                            None => Seq::<Point2D<T>>::empty(),
                        };
                        lemma_concat_insert_right(b0, ne0, nep, point);
                        lemma_concat_insert_left(b0 + ne0, b0 + nep, se0, point);
                        lemma_concat_insert_left(b0 + ne0 + se0, b0 + nep + se0, sw0, point);
                        lemma_concat_insert_left(
                            b0 + ne0 + se0 + sw0,
                            b0 + nep + se0 + sw0,
                            nw0,
                            point,
                        );
                        assert(self.points_seq() == b0 + nep + se0 + sw0 + nw0);
                        assert(old(self).points_seq() == b0 + ne0 + se0 + sw0 + nw0);
                    }
                }
                return res;
            } else {
                if self.se.is_none() {
                    self.se = Some(Box::new(QuadTree::new(self.boundary.new_se())));
                }
                let mut child = self.se.take().unwrap();
                let res = (&mut *child).insert(point);
                self.se = Some(child);
                proof {
                    if res is Ok {
                        let sep = match &self.se {
                            Some(c) => c.points_seq(),
                            None => Seq::<Point2D<T>>::empty(),
                        };
                        lemma_concat_insert_right(b0 + ne0, se0, sep, point);
                        lemma_concat_insert_left(b0 + ne0 + se0, b0 + ne0 + sep, sw0, point);
                        lemma_concat_insert_left(
                            b0 + ne0 + se0 + sw0,
                            b0 + ne0 + sep + sw0,
                            nw0,
                            point,
                        );
                        assert(self.points_seq() == b0 + ne0 + sep + sw0 + nw0);
                        assert(old(self).points_seq() == b0 + ne0 + se0 + sw0 + nw0);
                    }
                }
                return res;
            }
        }
    }

    /// Every stored point whose coordinates `boundary` contains, in
    /// pre-order: this node's bucket first, then the NE, SE, SW and NW
    /// subtrees. The returned references alias the tree's own storage.
    pub fn query(&self, boundary: Rectangle) -> (found: Vec<&Point2D<T>>)
        ensures
            derefed(found@) == self.query_spec(boundary),
        decreases self,
    {
        let mut result: Vec<&Point2D<T>> = Vec::new();

        let mut i: usize = 0;
        while i < self.points.len()
            invariant
                i <= self.points.len(),
                derefed(result@) == filter_contained(boundary, self.points@.take(i as int)),
            decreases self.points.len() - i,
        {
            let p = &self.points[i];
            proof {
                assert(self.points@.take(i + 1).drop_last() =~= self.points@.take(i as int));
                lemma_filter_contained_push(boundary, self.points@.take(i as int), self.points@[i as int]);
                lemma_derefed_push(result@, p);
            }
            if boundary.contains(p.x, p.y) {
                result.push(p);
            }
            i += 1;
        }
        proof {
            assert(self.points@.take(self.points@.len() as int) =~= self.points@);
        }

        let ghost acc0 = self.points@;
        let ghost ne_seq = match &self.ne {
            Some(c) => c.points_seq(),
            None => Seq::<Point2D<T>>::empty(),
        };
        let ghost se_seq = match &self.se {
            Some(c) => c.points_seq(),
            None => Seq::<Point2D<T>>::empty(),
        };
        let ghost sw_seq = match &self.sw {
            Some(c) => c.points_seq(),
            None => Seq::<Point2D<T>>::empty(),
        };
        let ghost nw_seq = match &self.nw {
            Some(c) => c.points_seq(),
            None => Seq::<Point2D<T>>::empty(),
        };

        if let Some(c) = &self.ne {
            let mut f = c.query(boundary);
            proof {
                lemma_derefed_add(result@, f@);
                lemma_filter_contained_add(boundary, acc0, ne_seq);
            }
            result.append(&mut f);
        } else {
            proof {
                assert(acc0 + ne_seq =~= acc0);
            }
        }
        if let Some(c) = &self.se {
            let mut f = c.query(boundary);
            proof {
                lemma_derefed_add(result@, f@);
                lemma_filter_contained_add(boundary, acc0 + ne_seq, se_seq);
            }
            result.append(&mut f);
        } else {
            proof {
                assert((acc0 + ne_seq) + se_seq =~= acc0 + ne_seq);
            }
        }
        if let Some(c) = &self.sw {
            let mut f = c.query(boundary);
            proof {
                lemma_derefed_add(result@, f@);
                lemma_filter_contained_add(boundary, acc0 + ne_seq + se_seq, sw_seq);
            }
            result.append(&mut f);
        } else {
            proof {
                assert((acc0 + ne_seq + se_seq) + sw_seq =~= acc0 + ne_seq + se_seq);
            }
        }
        if let Some(c) = &self.nw {
            let mut f = c.query(boundary);
            proof {
                lemma_derefed_add(result@, f@);
                lemma_filter_contained_add(boundary, acc0 + ne_seq + se_seq + sw_seq, nw_seq);
            }
            result.append(&mut f);
        } else {
            proof {
                assert((acc0 + ne_seq + se_seq + sw_seq) + nw_seq =~= acc0 + ne_seq + se_seq
                    + sw_seq);
            }
        }
        result
    }
}

/// Containment law of the range query: every returned point lies inside the
/// queried region, and each stored point inside the region is returned
/// exactly as often as it is stored — no duplicates, no omissions.
pub proof fn lemma_query_exact<T>(tree: QuadTree<T>, region: Rectangle, p: Point2D<T>)
    ensures
        forall|i: int|
            0 <= i < tree.query_spec(region).len() ==> region.contains_spec(
                (#[trigger] tree.query_spec(region)[i]).x,
                tree.query_spec(region)[i].y,
            ),
        tree.query_spec(region).to_multiset().count(p) == (if region.contains_spec(p.x, p.y) {
            tree.points_seq().to_multiset().count(p)
        } else {
            0
        }),
{
    lemma_filter_contained_sound(region, tree.points_seq());
    lemma_filter_contained_count(region, tree.points_seq(), p);
}

/// Querying is idempotent: two range queries with the same region on an
/// unmodified tree return the very same sequence of points, and so the same
/// multiset.
pub proof fn lemma_query_idempotent<T>(
    tree: QuadTree<T>,
    region: Rectangle,
    first: Seq<Point2D<T>>,
    second: Seq<Point2D<T>>,
)
    requires
        first == tree.query_spec(region),
        second == tree.query_spec(region),
    ensures
        first == second,
        first.to_multiset() == second.to_multiset(),
{
}

/// The containment invariant of the structure itself: every point stored
/// anywhere in a well-formed subtree lies inside that subtree's boundary.
pub proof fn lemma_stored_points_in_boundary<T>(tree: QuadTree<T>)
    requires
        tree.wf(),
    ensures
        forall|i: int|
            0 <= i < tree.points_seq().len() ==> tree.boundary().contains_spec(
                (#[trigger] tree.points_seq()[i]).x,
                tree.points_seq()[i].y,
            ),
    decreases tree,
{
    if let Some(c) = tree.ne {
        lemma_stored_points_in_boundary(*c);
    }
    if let Some(c) = tree.se {
        lemma_stored_points_in_boundary(*c);
    }
    if let Some(c) = tree.sw {
        lemma_stored_points_in_boundary(*c);
    }
    if let Some(c) = tree.nw {
        lemma_stored_points_in_boundary(*c);
    }
    let ne_seq = match tree.ne {
        Some(c) => c.points_seq(),
        None => Seq::<Point2D<T>>::empty(),
    };
    let se_seq = match tree.se {
        Some(c) => c.points_seq(),
        None => Seq::<Point2D<T>>::empty(),
    };
    let sw_seq = match tree.sw {
        Some(c) => c.points_seq(),
        None => Seq::<Point2D<T>>::empty(),
    };
    let nw_seq = match tree.nw {
        Some(c) => c.points_seq(),
        None => Seq::<Point2D<T>>::empty(),
    };
    let s = tree.points_seq();
    assert forall|i: int| 0 <= i < s.len() implies tree.boundary().contains_spec(
        (#[trigger] s[i]).x,
        s[i].y,
    ) by {
        lemma_quad_in_parent(tree.boundary(), s[i].x, s[i].y);
        let a = tree.points@;
        let b = a + ne_seq;
        let c = b + se_seq;
        let d = c + sw_seq;
        if i < a.len() {
            assert(s[i] == a[i]);
        } else if i < b.len() {
            assert(s[i] == ne_seq[i - a.len()]);
        } else if i < c.len() {
            assert(s[i] == se_seq[i - b.len()]);
        } else if i < d.len() {
            assert(s[i] == sw_seq[i - c.len()]);
        } else {
            assert(s[i] == nw_seq[i - d.len()]);
        }
    }
}

} // verus!
