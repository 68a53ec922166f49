use vstd::multiset::Multiset;
use vstd::prelude::*;

verus! {

/// An axis-aligned rectangle: origin `(x, y)`, extending `width` to the east
/// and `height` to the south. Containment is inclusive on all four edges.
///
/// Quadrant derivation halves the extents; the east column and the south row
/// absorb an odd remainder, so the four quadrants tile the rectangle exactly,
/// sharing only their boundary lines.
#[derive(Debug, Clone, Copy)]
pub struct Rectangle {
    pub x: i64,
    pub y: i64,
    pub width: u64,
    pub height: u64,
}

impl Rectangle {
    /// Whether `(px, py)` lies inside the rectangle, inclusive of the edges.
    pub open spec fn contains_spec(self, px: i64, py: i64) -> bool {
        &&& self.x <= px
        &&& px as int <= self.x as int + self.width as int
        &&& self.y <= py
        &&& py as int <= self.y as int + self.height as int
    }

    /// The far corner is representable in `i64`, so quadrant origins are too.
    pub open spec fn fits(self) -> bool {
        &&& self.x as int + self.width as int <= i64::MAX as int
        &&& self.y as int + self.height as int <= i64::MAX as int
    }

    /// The vertical midline: origin column of the east quadrants.
    pub open spec fn mid_x(self) -> int {
        self.x as int + self.width as int / 2
    }

    /// The horizontal midline: origin row of the south quadrants.
    pub open spec fn mid_y(self) -> int {
        self.y as int + self.height as int / 2
    }

    pub open spec fn quad_nw(self) -> Rectangle {
        Rectangle {
            x: self.x,
            y: self.y,
            width: (self.width as int / 2) as u64,
            height: (self.height as int / 2) as u64,
        }
    }

    pub open spec fn quad_ne(self) -> Rectangle {
        Rectangle {
            x: self.mid_x() as i64,
            y: self.y,
            width: (self.width as int - self.width as int / 2) as u64,
            height: (self.height as int / 2) as u64,
        }
    }

    pub open spec fn quad_sw(self) -> Rectangle {
        Rectangle {
            x: self.x,
            y: self.mid_y() as i64,
            width: (self.width as int / 2) as u64,
            height: (self.height as int - self.height as int / 2) as u64,
        }
    }

    pub open spec fn quad_se(self) -> Rectangle {
        Rectangle {
            x: self.mid_x() as i64,
            y: self.mid_y() as i64,
            width: (self.width as int - self.width as int / 2) as u64,
            height: (self.height as int - self.height as int / 2) as u64,
        }
    }

    pub fn new(x: i64, y: i64, width: u64, height: u64) -> (r: Rectangle)
        ensures
            r == (Rectangle { x, y, width, height }),
    {
        Rectangle { x, y, width, height }
    }

    pub fn contains(&self, x: i64, y: i64) -> (r: bool)
        ensures
            r == self.contains_spec(x, y),
    {
        x >= self.x && x as i128 <= self.x as i128 + self.width as i128 && y >= self.y
            && y as i128 <= self.y as i128 + self.height as i128
    }

    /// The northwest quadrant: same origin, halved extents.
    pub fn new_nw(&self) -> (r: Rectangle)
        ensures
            r == self.quad_nw(),
    {
        Rectangle::new(self.x, self.y, self.width / 2, self.height / 2)
    }

    /// The northeast quadrant: origin shifted to the vertical midline.
    pub fn new_ne(&self) -> (r: Rectangle)
        requires
            self.mid_x() <= i64::MAX as int,
        ensures
            r == self.quad_ne(),
    {
        let half_w: u64 = self.width / 2;
        let east_x: i64 = (self.x as i128 + half_w as i128) as i64;
        Rectangle::new(east_x, self.y, self.width - half_w, self.height / 2)
    }

    /// The southwest quadrant: origin shifted to the horizontal midline.
    pub fn new_sw(&self) -> (r: Rectangle)
        requires
            self.mid_y() <= i64::MAX as int,
        ensures
            r == self.quad_sw(),
    {
        let half_h: u64 = self.height / 2;
        let south_y: i64 = (self.y as i128 + half_h as i128) as i64;
        Rectangle::new(self.x, south_y, self.width / 2, self.height - half_h)
    }

    /// The southeast quadrant: origin shifted to both midlines.
    pub fn new_se(&self) -> (r: Rectangle)
        requires
            self.mid_x() <= i64::MAX as int,
            self.mid_y() <= i64::MAX as int,
        ensures
            r == self.quad_se(),
    {
        let half_w: u64 = self.width / 2;
        let half_h: u64 = self.height / 2;
        let east_x: i64 = (self.x as i128 + half_w as i128) as i64;
        let south_y: i64 = (self.y as i128 + half_h as i128) as i64;
        Rectangle::new(east_x, south_y, self.width - half_w, self.height - half_h)
    }
}

/// A coordinate pair carrying an opaque payload. The tree stores points by
/// value and never inspects or compares the payload.
#[derive(Debug, Clone, Copy)]
pub struct Point2D<T> {
    pub x: i64,
    pub y: i64,
    pub data: T,
}

/// The one failure an insertion can report: the point lies outside the
/// boundary the tree covers.
#[derive(Debug, Clone, Copy, PartialEq, Eq)]
pub enum Error {
    OutOfBounds,
}

/// The subsequence of `s`, in order, whose points lie inside `region`.
pub open spec fn filter_contained<T>(region: Rectangle, s: Seq<Point2D<T>>) -> Seq<Point2D<T>>
    decreases s.len(),
{
    if s.len() == 0 {
        Seq::empty()
    } else {
        let rest = filter_contained(region, s.drop_last());
        if region.contains_spec(s.last().x, s.last().y) {
            rest.push(s.last())
        } else {
            rest
        }
    }
}

pub proof fn lemma_filter_contained_push<T>(region: Rectangle, s: Seq<Point2D<T>>, p: Point2D<T>)
    ensures
        filter_contained(region, s.push(p)) == (if region.contains_spec(p.x, p.y) {
            filter_contained(region, s).push(p)
        } else {
            filter_contained(region, s)
        }),
{
    assert(s.push(p).drop_last() =~= s);
    assert(s.push(p).last() == p);
}

pub proof fn lemma_filter_contained_add<T>(region: Rectangle, a: Seq<Point2D<T>>, b: Seq<
    Point2D<T>,
>)
    ensures
        filter_contained(region, a + b) == filter_contained(region, a) + filter_contained(
            region,
            b,
        ),
    decreases b.len(),
{
    if b.len() == 0 {
        assert(a + b =~= a);
        assert(filter_contained(region, a) + filter_contained(region, b) =~= filter_contained(
            region,
            a,
        ));
    } else {
        lemma_filter_contained_add(region, a, b.drop_last());
        assert((a + b).drop_last() =~= a + b.drop_last());
        assert((a + b).last() == b.last());
        if region.contains_spec(b.last().x, b.last().y) {
            assert(filter_contained(region, a + b.drop_last()).push(b.last())
                =~= filter_contained(region, a) + filter_contained(region, b.drop_last()).push(
                b.last(),
            ));
        }
    }
}

/// Every point that the filter keeps lies inside the region.
pub proof fn lemma_filter_contained_sound<T>(region: Rectangle, s: Seq<Point2D<T>>)
    ensures
        forall|i: int|
            0 <= i < filter_contained(region, s).len() ==> region.contains_spec(
                (#[trigger] filter_contained(region, s)[i]).x,
                filter_contained(region, s)[i].y,
            ),
    decreases s.len(),
{
    if s.len() != 0 {
        lemma_filter_contained_sound(region, s.drop_last());
        let f = filter_contained(region, s);
        let fr = filter_contained(region, s.drop_last());
        assert forall|i: int| 0 <= i < f.len() implies region.contains_spec(
            (#[trigger] f[i]).x,
            f[i].y,
        ) by {
            if region.contains_spec(s.last().x, s.last().y) {
                assert(f == fr.push(s.last()));
                if i < fr.len() {
                    assert(f[i] == fr[i]);
                } else {
                    assert(f[i] == s.last());
                }
            } else {
                assert(f == fr);
            }
        }
    }
}

/// The filter keeps a point inside the region exactly as often as the
/// sequence holds it, and drops every point outside: no duplicates, no
/// omissions.
pub proof fn lemma_filter_contained_count<T>(region: Rectangle, s: Seq<Point2D<T>>, p: Point2D<T>)
    ensures
        filter_contained(region, s).to_multiset().count(p) == (if region.contains_spec(p.x, p.y) {
            s.to_multiset().count(p)
        } else {
            0
        }),
    decreases s.len(),
{
    broadcast use vstd::seq_lib::group_to_multiset_ensures;
    broadcast use vstd::multiset::group_multiset_axioms;
    broadcast use vstd::multiset::group_multiset_properties;

    if s.len() == 0 {
        assert(!s.contains(p));
        assert(!filter_contained(region, s).contains(p));
    } else {
        let q = s.last();
        let rest = s.drop_last();
        lemma_filter_contained_count(region, rest, p);
        assert(s =~= rest.push(q));
        assert(s.to_multiset() == rest.push(q).to_multiset());
        assert(rest.push(q).to_multiset() =~= rest.to_multiset().insert(q));
        if region.contains_spec(q.x, q.y) {
            assert(filter_contained(region, s) == filter_contained(region, rest).push(q));
            assert(filter_contained(region, rest).push(q).to_multiset() =~= filter_contained(
                region,
                rest,
            ).to_multiset().insert(q));
        }
    }
}

/// Two stores of the same points answer any range query with the same
/// multiset of points, whatever order each one keeps them in.
pub proof fn lemma_filter_contained_agrees<T>(
    region: Rectangle,
    a: Seq<Point2D<T>>,
    b: Seq<Point2D<T>>,
)
    requires
        a.to_multiset() == b.to_multiset(),
    ensures
        filter_contained(region, a).to_multiset() == filter_contained(region, b).to_multiset(),
{
    assert forall|p: Point2D<T>|
        filter_contained(region, a).to_multiset().count(p) == filter_contained(
            region,
            b,
        ).to_multiset().count(p) by {
        lemma_filter_contained_count(region, a, p);
        lemma_filter_contained_count(region, b, p);
    }
    assert(filter_contained(region, a).to_multiset() =~= filter_contained(region, b).to_multiset());
}

/// Count-consistency law, one insertion at a time. A store that holds
/// exactly the in-bounds points of the insertion history `trace` over the
/// boundary `b` gains the new point exactly when `b` contains it — the case
/// in which an insertion succeeds — and holds it unchanged otherwise; its
/// size is the number of successful insertions so far. Together with the
/// contracts of `new` (empty store), `insert` (adds exactly the point on
/// `Ok`, leaves the tree identical on `Err`) and `count` (the stored total),
/// induction over any call sequence gives: `count()` equals the number of
/// `insert` calls that returned `Ok`, duplicates each counted.
pub proof fn lemma_count_history_step<T>(
    b: Rectangle,
    trace: Seq<Point2D<T>>,
    stored: Multiset<Point2D<T>>,
    p: Point2D<T>,
)
    requires
        stored == filter_contained(b, trace).to_multiset(),
    ensures
        b.contains_spec(p.x, p.y) ==> stored.insert(p) == filter_contained(
            b,
            trace.push(p),
        ).to_multiset(),
        !b.contains_spec(p.x, p.y) ==> stored == filter_contained(b, trace.push(p)).to_multiset(),
        stored.len() == filter_contained(b, trace).len(),
{
    broadcast use vstd::seq_lib::group_to_multiset_ensures;

    lemma_filter_contained_push(b, trace, p);
}

/// Adding one copy of `p` to the left segment of a concatenation adds
/// exactly that copy to the whole.
pub proof fn lemma_concat_insert_left<T>(
    x_old: Seq<Point2D<T>>,
    x_new: Seq<Point2D<T>>,
    y: Seq<Point2D<T>>,
    p: Point2D<T>,
)
    requires
        x_new.to_multiset() == x_old.to_multiset().insert(p),
    ensures
        (x_new + y).to_multiset() == (x_old + y).to_multiset().insert(p),
{
    broadcast use vstd::multiset::group_multiset_axioms;
    broadcast use vstd::multiset::group_multiset_properties;

    vstd::seq_lib::lemma_multiset_commutative(x_new, y);
    vstd::seq_lib::lemma_multiset_commutative(x_old, y);
    assert((x_new + y).to_multiset() =~= (x_old + y).to_multiset().insert(p));
}

/// Adding one copy of `p` to the right segment of a concatenation adds
/// exactly that copy to the whole.
pub proof fn lemma_concat_insert_right<T>(
    x: Seq<Point2D<T>>,
    y_old: Seq<Point2D<T>>,
    y_new: Seq<Point2D<T>>,
    p: Point2D<T>,
)
    requires
        y_new.to_multiset() == y_old.to_multiset().insert(p),
    ensures
        (x + y_new).to_multiset() == (x + y_old).to_multiset().insert(p),
{
    broadcast use vstd::multiset::group_multiset_axioms;
    broadcast use vstd::multiset::group_multiset_properties;

    vstd::seq_lib::lemma_multiset_commutative(x, y_new);
    vstd::seq_lib::lemma_multiset_commutative(x, y_old);
    assert((x + y_new).to_multiset() =~= (x + y_old).to_multiset().insert(p));
}

/// The view of a sequence of borrowed points as the points themselves.
pub open spec fn derefed<T>(s: Seq<&Point2D<T>>) -> Seq<Point2D<T>> {
    s.map_values(|p: &Point2D<T>| *p)
}

pub proof fn lemma_derefed_push<T>(s: Seq<&Point2D<T>>, p: &Point2D<T>)
    ensures
        derefed(s.push(p)) == derefed(s).push(*p),
{
    assert(derefed(s.push(p)) =~= derefed(s).push(*p));
}

pub proof fn lemma_derefed_add<T>(a: Seq<&Point2D<T>>, b: Seq<&Point2D<T>>)
    ensures
        derefed(a + b) == derefed(a) + derefed(b),
{
    assert(derefed(a + b) =~= derefed(a) + derefed(b));
}

/// The quadrants of a rectangle that fits stay representable, and its
/// midlines do too.
pub proof fn lemma_quads_fit(r: Rectangle)
    requires
        r.fits(),
    ensures
        r.mid_x() <= i64::MAX as int,
        r.mid_y() <= i64::MAX as int,
        r.quad_nw().fits(),
        r.quad_ne().fits(),
        r.quad_sw().fits(),
        r.quad_se().fits(),
{
    assert(0 <= r.width as int / 2 <= r.width as int);
    assert(0 <= r.height as int / 2 <= r.height as int);
}

/// Routing by midline comparison lands in a quadrant that contains the point:
/// a point on a midline is not west or north of it, and so falls to the east
/// or south side.
pub proof fn lemma_route(r: Rectangle, px: i64, py: i64)
    requires
        r.fits(),
        r.contains_spec(px, py),
    ensures
        px < r.mid_x() && py < r.mid_y() ==> r.quad_nw().contains_spec(px, py),
        px < r.mid_x() && py >= r.mid_y() ==> r.quad_sw().contains_spec(px, py),
        px >= r.mid_x() && py < r.mid_y() ==> r.quad_ne().contains_spec(px, py),
        px >= r.mid_x() && py >= r.mid_y() ==> r.quad_se().contains_spec(px, py),
{
    assert(0 <= r.width as int / 2 <= r.width as int);
    assert(0 <= r.height as int / 2 <= r.height as int);
}

/// A point inside any quadrant is inside the parent rectangle.
pub proof fn lemma_quad_in_parent(r: Rectangle, px: i64, py: i64)
    requires
        r.fits(),
    ensures
        r.quad_nw().contains_spec(px, py) ==> r.contains_spec(px, py),
        r.quad_ne().contains_spec(px, py) ==> r.contains_spec(px, py),
        r.quad_sw().contains_spec(px, py) ==> r.contains_spec(px, py),
        r.quad_se().contains_spec(px, py) ==> r.contains_spec(px, py),
{
    assert(0 <= r.width as int / 2 <= r.width as int);
    assert(0 <= r.height as int / 2 <= r.height as int);
}

} // verus!
