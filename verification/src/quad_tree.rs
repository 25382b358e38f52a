//! A bucketed quadtree over positioned items.

use crate::geometry::{Boundary, Position};
use crate::traits::Positional;
use vstd::multiset::Multiset;
use vstd::prelude::*;

verus! {

/// A leaf is split once it holds more items than this.
pub const MAX_CAPACITY: usize = 1024;

/// A leaf this deep is never split, however many items it holds.
pub const MAX_DEPTH: i8 = 32;

/// Half of `d`, rounded towards zero.
pub open spec fn half(d: int) -> int {
    if d >= 0 {
        d / 2
    } else {
        -((-d) / 2)
    }
}

/// The coordinate at which the span from `lo` to `hi` is split.
pub open spec fn split_coordinate(lo: i32, hi: i32) -> int {
    hi - half(hi - lo)
}

/// The point around which a box is cut into quadrants.
pub open spec fn center(b: Boundary) -> Position {
    Position {
        x: split_coordinate(b.corner_min.x, b.corner_max.x) as i32,
        y: split_coordinate(b.corner_min.y, b.corner_max.y) as i32,
    }
}

/// The quadrant of `b` with the least x and the greatest y.
pub open spec fn top_left_of(b: Boundary) -> Boundary {
    Boundary {
        corner_min: Position { x: b.corner_min.x, y: center(b).y },
        corner_max: Position { x: center(b).x, y: b.corner_max.y },
    }
}

/// The quadrant of `b` with the greatest x and the greatest y.
pub open spec fn top_right_of(b: Boundary) -> Boundary {
    Boundary { corner_min: center(b), corner_max: b.corner_max }
}

/// The quadrant of `b` with the least x and the least y.
pub open spec fn bottom_left_of(b: Boundary) -> Boundary {
    Boundary { corner_min: b.corner_min, corner_max: center(b) }
}

/// The quadrant of `b` with the greatest x and the least y.
pub open spec fn bottom_right_of(b: Boundary) -> Boundary {
    Boundary {
        corner_min: Position { x: center(b).x, y: b.corner_min.y },
        corner_max: Position { x: b.corner_max.x, y: center(b).y },
    }
}

/// The split coordinate lies between the two ends, whichever is larger.
pub proof fn lemma_split_between(lo: i32, hi: i32)
    ensures
        lo <= hi ==> lo <= split_coordinate(lo, hi) <= hi,
        lo > hi ==> hi <= split_coordinate(lo, hi) <= lo,
{
}

/// The four quadrants of a box cover it: a point of the box lies in one of them.
pub proof fn lemma_quadrants_cover(b: Boundary, p: Position)
    requires
        b.contains_spec(p),
    ensures
        top_left_of(b).contains_spec(p) || top_right_of(b).contains_spec(p) || bottom_left_of(
            b,
        ).contains_spec(p) || bottom_right_of(b).contains_spec(p),
{
    lemma_split_between(b.corner_min.x, b.corner_max.x);
    lemma_split_between(b.corner_min.y, b.corner_max.y);
}

/// A point of a quadrant of a box that is not empty is a point of that box.
pub proof fn lemma_quadrants_inside(b: Boundary, p: Position)
    requires
        b.corner_min.x <= b.corner_max.x,
        b.corner_min.y <= b.corner_max.y,
        top_left_of(b).contains_spec(p) || top_right_of(b).contains_spec(p) || bottom_left_of(
            b,
        ).contains_spec(p) || bottom_right_of(b).contains_spec(p),
    ensures
        b.contains_spec(p),
{
    lemma_split_between(b.corner_min.x, b.corner_max.x);
    lemma_split_between(b.corner_min.y, b.corner_max.y);
}

/// Every item of `m` lies in `b`.
pub open spec fn all_in<T: Positional>(m: Multiset<T>, b: Boundary) -> bool {
    forall|x: T| #[trigger] m.contains(x) ==> b.contains_spec(x.position_spec())
}

/// No item of `m` lies in `b`.
pub open spec fn none_in<T: Positional>(m: Multiset<T>, b: Boundary) -> bool {
    forall|x: T| #[trigger] m.contains(x) ==> !b.contains_spec(x.position_spec())
}

proof fn lemma_insert_all_in<T: Positional>(m: Multiset<T>, v: T, b: Boundary)
    requires
        all_in(m, b),
        b.contains_spec(v.position_spec()),
    ensures
        all_in(m.insert(v), b),
{
    broadcast use vstd::multiset::group_multiset_axioms;

    assert forall|x: T| #[trigger] m.insert(v).contains(x) implies b.contains_spec(
        x.position_spec(),
    ) by {
        if x != v {
            assert(m.contains(x));
        }
    }
}

proof fn lemma_insert_none_in<T: Positional>(m: Multiset<T>, v: T, b: Boundary)
    requires
        none_in(m, b),
        !b.contains_spec(v.position_spec()),
    ensures
        none_in(m.insert(v), b),
{
    broadcast use vstd::multiset::group_multiset_axioms;

    assert forall|x: T| #[trigger] m.insert(v).contains(x) implies !b.contains_spec(
        x.position_spec(),
    ) by {
        if x != v {
            assert(m.contains(x));
        }
    }
}

fn split(lo: i32, hi: i32) -> (c: i32)
    ensures
        c == split_coordinate(lo, hi),
{
    let d: i64 = hi as i64 - lo as i64;
    let h: i64 = d / 2;
    assert(h == half(d as int));
    (hi as i64 - h) as i32
}

/// The number of the first quadrant of `b` that holds `p`, in the order top
/// left (0), top right (1), bottom left (2), bottom right (3); 4 if none
/// does.
pub open spec fn first_holding(b: Boundary, p: Position) -> int {
    if top_left_of(b).contains_spec(p) {
        0
    } else if top_right_of(b).contains_spec(p) {
        1
    } else if bottom_left_of(b).contains_spec(p) {
        2
    } else if bottom_right_of(b).contains_spec(p) {
        3
    } else {
        4
    }
}

/// Those of the first `k` of `items` whose first holding quadrant of `b` is
/// `quadrant`, in their order.
pub open spec fn sorted_into<T: Positional>(
    items: Seq<T>,
    b: Boundary,
    quadrant: int,
    k: nat,
) -> Seq<T>
    decreases k,
{
    if k == 0 {
        Seq::empty()
    } else if first_holding(b, items[k - 1].position_spec()) == quadrant {
        sorted_into(items, b, quadrant, (k - 1) as nat).push(items[k - 1])
    } else {
        sorted_into(items, b, quadrant, (k - 1) as nat)
    }
}

/// A quadtree node: either a leaf with a bucket of items, or an inner node
/// with four children and an empty bucket.
pub struct QuadTree<T: Positional + Copy> {
    pub top_left: Option<Box<QuadTree<T>>>,
    pub top_right: Option<Box<QuadTree<T>>>,
    pub bottom_left: Option<Box<QuadTree<T>>>,
    pub bottom_right: Option<Box<QuadTree<T>>>,
    pub depth: i8,
    pub has_children: bool,
    pub boundary: Boundary,
    pub data: Vec<T>,
}

impl<T: Positional + Copy> QuadTree<T> {
    /// All items stored below this node.
    pub open spec fn items(self) -> Multiset<T>
        decreases self,
    {
        let own = self.data@.to_multiset();
        let tl = match self.top_left {
            Some(c) => c.items(),
            None => Multiset::empty(),
        };
        let tr = match self.top_right {
            Some(c) => c.items(),
            None => Multiset::empty(),
        };
        let bl = match self.bottom_left {
            Some(c) => c.items(),
            None => Multiset::empty(),
        };
        let br = match self.bottom_right {
            Some(c) => c.items(),
            None => Multiset::empty(),
        };
        own.add(tl).add(tr).add(bl).add(br)
    }

    /// Every item below this node lies in `b`.
    pub open spec fn all_inside(self, b: Boundary) -> bool {
        all_in(self.items(), b)
    }

    /// No item below this node lies in `b`.
    pub open spec fn all_outside(self, b: Boundary) -> bool {
        none_in(self.items(), b)
    }

    /// The shape every tree built by `new` and `add_data` has.
    pub open spec fn wf(self) -> bool
        decreases self,
    {
        &&& 0 <= self.depth <= MAX_DEPTH
        &&& self.all_inside(self.boundary)
        &&& if self.has_children {
            &&& self.depth < MAX_DEPTH
            &&& self.data@.len() == 0
            &&& self.top_left is Some
            &&& self.top_right is Some
            &&& self.bottom_left is Some
            &&& self.bottom_right is Some
            &&& self.top_left->0.wf()
            &&& self.top_right->0.wf()
            &&& self.bottom_left->0.wf()
            &&& self.bottom_right->0.wf()
            &&& self.top_left->0.depth == self.depth + 1
            &&& self.top_right->0.depth == self.depth + 1
            &&& self.bottom_left->0.depth == self.depth + 1
            &&& self.bottom_right->0.depth == self.depth + 1
            &&& self.top_left->0.boundary == top_left_of(self.boundary)
            &&& self.top_right->0.boundary == top_right_of(self.boundary)
            &&& self.bottom_left->0.boundary == bottom_left_of(self.boundary)
            &&& self.bottom_right->0.boundary == bottom_right_of(self.boundary)
            &&& self.top_right->0.all_outside(top_left_of(self.boundary))
            &&& self.bottom_left->0.all_outside(top_left_of(self.boundary))
            &&& self.bottom_left->0.all_outside(top_right_of(self.boundary))
            &&& self.bottom_right->0.all_outside(top_left_of(self.boundary))
            &&& self.bottom_right->0.all_outside(top_right_of(self.boundary))
            &&& self.bottom_right->0.all_outside(bottom_left_of(self.boundary))
        } else {
            &&& self.top_left is None
            &&& self.top_right is None
            &&& self.bottom_left is None
            &&& self.bottom_right is None
            &&& (self.data@.len() <= MAX_CAPACITY || self.depth == MAX_DEPTH)
        }
    }

    /// The bucket in which a lookup of `point` ends: at each inner node the
    /// first child, in the order top left, top right, bottom left, bottom
    /// right, whose box holds the point.
    pub open spec fn find_spec(self, point: Position) -> Option<Seq<T>>
        decreases self,
    {
        if !self.boundary.contains_spec(point) {
            None
        } else if !self.has_children {
            Some(self.data@)
        } else if self.top_left is Some && self.top_left->0.boundary.contains_spec(point) {
            self.top_left->0.find_spec(point)
        } else if self.top_right is Some && self.top_right->0.boundary.contains_spec(point) {
            self.top_right->0.find_spec(point)
        } else if self.bottom_left is Some && self.bottom_left->0.boundary.contains_spec(point) {
            self.bottom_left->0.find_spec(point)
        } else if self.bottom_right is Some && self.bottom_right->0.boundary.contains_spec(point) {
            self.bottom_right->0.find_spec(point)
        } else {
            None
        }
    }

    /// The box of the leaf in which a lookup of `point` ends.
    pub open spec fn leaf_boundary(self, point: Position) -> Option<Boundary>
        decreases self,
    {
        if !self.boundary.contains_spec(point) {
            None
        } else if !self.has_children {
            Some(self.boundary)
        } else if self.top_left is Some && self.top_left->0.boundary.contains_spec(point) {
            self.top_left->0.leaf_boundary(point)
        } else if self.top_right is Some && self.top_right->0.boundary.contains_spec(point) {
            self.top_right->0.leaf_boundary(point)
        } else if self.bottom_left is Some && self.bottom_left->0.boundary.contains_spec(point) {
            self.bottom_left->0.leaf_boundary(point)
        } else if self.bottom_right is Some && self.bottom_right->0.boundary.contains_spec(point) {
            self.bottom_right->0.leaf_boundary(point)
        } else {
            None
        }
    }

    /// Whether this node is a leaf whose bucket is `bucket`.
    pub open spec fn is_leaf_with(self, bucket: Seq<T>) -> bool {
        !self.has_children && self.data@ == bucket
    }

    /// Whether the child `child` holds what falls to the quadrant
    /// `quadrant` of `items`: if that is no more than a leaf takes, or the
    /// child is as deep as a tree goes, the child is a leaf whose bucket
    /// holds these items in their order.
    pub open spec fn child_took(
        self,
        child: Option<Box<QuadTree<T>>>,
        items: Seq<T>,
        quadrant: int,
    ) -> bool {
        let share = sorted_into(items, self.boundary, quadrant, items.len());
        child is Some && (share.len() <= MAX_CAPACITY || self.depth + 1 == MAX_DEPTH
            ==> child->0.is_leaf_with(share))
    }

    /// Whether this node is what splitting a leaf with the bucket `items`
    /// gives: an inner node with an empty bucket, each of whose children
    /// took the items that fall to its quadrant.
    pub open spec fn is_split_of(self, items: Seq<T>) -> bool {
        &&& self.has_children
        &&& self.data@.len() == 0
        &&& self.child_took(self.top_left, items, 0)
        &&& self.child_took(self.top_right, items, 1)
        &&& self.child_took(self.bottom_left, items, 2)
        &&& self.child_took(self.bottom_right, items, 3)
    }

    /// Whether `after` is this inner node with `item` handed to the child
    /// number `quadrant` and nothing else changed: that child holds the item
    /// besides what it held, the other three children are as they were.
    pub open spec fn handed_to(self, after: QuadTree<T>, item: T, quadrant: int) -> bool {
        &&& quadrant == 0 ==> {
            &&& after.top_left is Some
            &&& after.top_left->0.items() == self.top_left->0.items().insert(item)
        }
        &&& quadrant != 0 ==> after.top_left == self.top_left
        &&& quadrant == 1 ==> {
            &&& after.top_right is Some
            &&& after.top_right->0.items() == self.top_right->0.items().insert(item)
        }
        &&& quadrant != 1 ==> after.top_right == self.top_right
        &&& quadrant == 2 ==> {
            &&& after.bottom_left is Some
            &&& after.bottom_left->0.items() == self.bottom_left->0.items().insert(item)
        }
        &&& quadrant != 2 ==> after.bottom_left == self.bottom_left
        &&& quadrant == 3 ==> {
            &&& after.bottom_right is Some
            &&& after.bottom_right->0.items() == self.bottom_right->0.items().insert(item)
        }
        &&& quadrant != 3 ==> after.bottom_right == self.bottom_right
    }

    /// An empty leaf over `boundary`.
    pub fn new(boundary: Boundary, depth: i8) -> (tree: QuadTree<T>)
        requires
            0 <= depth <= MAX_DEPTH,
        ensures
            tree.wf(),
            tree.boundary == boundary,
            tree.depth == depth,
            !tree.has_children,
            tree.data@ == Seq::<T>::empty(),
            tree.items() == Multiset::<T>::empty(),
    {
        let tree = QuadTree {
            top_left: None,
            top_right: None,
            bottom_left: None,
            bottom_right: None,
            has_children: false,
            boundary,
            depth,
            data: Vec::new(),
        };
        proof {
            broadcast use vstd::multiset::group_multiset_axioms;
            broadcast use vstd::seq_lib::group_to_multiset_ensures;
            assert(tree.data@.to_multiset() =~= Multiset::<T>::empty());
            assert(tree.items() =~= Multiset::<T>::empty());
        }
        tree
    }

    /// Whether `point` lies in the box of this node.
    pub fn contains(&self, point: &Position) -> (inside: bool)
        ensures
            inside == self.boundary.contains_spec(*point),
    {
        self.boundary.contains(point)
    }

    /// The bucket of the leaf that `point` falls in, or nothing for a point
    /// outside this node's box.
    pub fn find_data(&self, point: &Position) -> (found: Option<&Vec<T>>)
        ensures
            match found {
                Some(bucket) => self.find_spec(*point) == Some(bucket@),
                None => self.find_spec(*point) is None,
            },
        decreases self,
    {
        if !self.contains(point) {
            return None;
        }
        if !self.has_children {
            return Some(&self.data);
        }
        match &self.top_left {
            Some(child) => {
                if child.contains(point) {
                    return child.find_data(point);
                }
            },
            None => {},
        }
        match &self.top_right {
            Some(child) => {
                if child.contains(point) {
                    return child.find_data(point);
                }
            },
            None => {},
        }
        match &self.bottom_left {
            Some(child) => {
                if child.contains(point) {
                    return child.find_data(point);
                }
            },
            None => {},
        }
        match &self.bottom_right {
            Some(child) => {
                if child.contains(point) {
                    return child.find_data(point);
                }
            },
            None => {},
        }
        None
    }

    /// Stores `data` in the leaf its position falls in, and splits that leaf
    /// if it has grown past its capacity. Returns whether the position lies
    /// in this node's box; if not, nothing is stored.
    pub fn add_data(&mut self, data: T) -> (added: bool)
        requires
            old(self).wf(),
        ensures
            final(self).wf(),
            final(self).boundary == old(self).boundary,
            final(self).depth == old(self).depth,
            added == old(self).boundary.contains_spec(data.position_spec()),
            final(self).items() == if added {
                old(self).items().insert(data)
            } else {
                old(self).items()
            },
            !added ==> *final(self) == *old(self),
            old(self).has_children ==> final(self).has_children,
            old(self).has_children && added ==> old(self).handed_to(
                *final(self),
                data,
                first_holding(old(self).boundary, data.position_spec()),
            ),
            added && !old(self).has_children
                ==> if old(self).data@.len() < MAX_CAPACITY || old(self).depth == MAX_DEPTH {
                !final(self).has_children && final(self).data@ == old(self).data@.push(data)
            } else {
                final(self).is_split_of(old(self).data@.push(data))
            },
        decreases MAX_DEPTH - old(self).depth, 1int,
    {
        broadcast use vstd::multiset::group_multiset_axioms;

        let position = *data.position();
        if !self.boundary.contains(&position) {
            return false;
        }
        if self.has_children {
            let mut added = false;
            match &mut self.top_left {
                Some(child) => {
                    added = child.add_data(data);
                },
                None => {},
            }
            if !added {
                match &mut self.top_right {
                    Some(child) => {
                        added = child.add_data(data);
                    },
                    None => {},
                }
            }
            if !added {
                match &mut self.bottom_left {
                    Some(child) => {
                        added = child.add_data(data);
                    },
                    None => {},
                }
            }
            if !added {
                match &mut self.bottom_right {
                    Some(child) => {
                        added = child.add_data(data);
                    },
                    None => {},
                }
            }
            proof {
                let tl = top_left_of(self.boundary);
                let tr = top_right_of(self.boundary);
                let bl = bottom_left_of(self.boundary);
                lemma_quadrants_cover(self.boundary, position);
                assert(added);
                assert(self.items() =~= old(self).items().insert(data));
                lemma_insert_all_in(old(self).items(), data, self.boundary);
                if tl.contains_spec(position) {
                } else if tr.contains_spec(position) {
                    lemma_insert_none_in(old(self).top_right->0.items(), data, tl);
                } else if bl.contains_spec(position) {
                    lemma_insert_none_in(old(self).bottom_left->0.items(), data, tl);
                    lemma_insert_none_in(old(self).bottom_left->0.items(), data, tr);
                } else {
                    lemma_insert_none_in(old(self).bottom_right->0.items(), data, tl);
                    lemma_insert_none_in(old(self).bottom_right->0.items(), data, tr);
                    lemma_insert_none_in(old(self).bottom_right->0.items(), data, bl);
                }
            }
        } else {
            self.data.push(data);
            proof {
                broadcast use vstd::seq_lib::group_to_multiset_ensures;
                assert(self.data@ == old(self).data@.push(data));
                assert(self.items() =~= old(self).items().insert(data));
                lemma_insert_all_in(old(self).items(), data, self.boundary);
            }
            if self.data.len() > MAX_CAPACITY && self.depth < MAX_DEPTH {
                self.sub_divide();
            }
        }
        true
    }

    /// Turns a leaf into an inner node: cuts its box into four quadrants
    /// around the center and hands every item of the bucket to the first
    /// quadrant that holds it.
    pub fn sub_divide(&mut self)
        requires
            !old(self).has_children,
            old(self).top_left is None,
            old(self).top_right is None,
            old(self).bottom_left is None,
            old(self).bottom_right is None,
            0 <= old(self).depth < MAX_DEPTH,
            old(self).all_inside(old(self).boundary),
        ensures
            final(self).wf(),
            final(self).has_children,
            final(self).boundary == old(self).boundary,
            final(self).depth == old(self).depth,
            final(self).items() == old(self).items(),
            final(self).is_split_of(old(self).data@),
        decreases MAX_DEPTH - old(self).depth, 0int,
    {
        broadcast use vstd::multiset::group_multiset_axioms;
        broadcast use vstd::seq_lib::group_to_multiset_ensures;

        let min = self.boundary.corner_min;
        let max = self.boundary.corner_max;
        let mid = Position { x: split(min.x, max.x), y: split(min.y, max.y) };
        let new_depth: i8 = self.depth + 1;
        let mut top_left: QuadTree<T> = QuadTree::new(
            Boundary {
                corner_min: Position { x: min.x, y: mid.y },
                corner_max: Position { x: mid.x, y: max.y },
            },
            new_depth,
        );
        let mut top_right: QuadTree<T> = QuadTree::new(
            Boundary { corner_min: mid, corner_max: max },
            new_depth,
        );
        let mut bottom_left: QuadTree<T> = QuadTree::new(
            Boundary { corner_min: min, corner_max: mid },
            new_depth,
        );
        let mut bottom_right: QuadTree<T> = QuadTree::new(
            Boundary {
                corner_min: Position { x: mid.x, y: min.y },
                corner_max: Position { x: max.x, y: mid.y },
            },
            new_depth,
        );
        proof {
            lemma_split_between(min.x, max.x);
            lemma_split_between(min.y, max.y);
            assert(mid == center(self.boundary));
            assert(self.data@.subrange(0, 0).to_multiset() =~= Multiset::<T>::empty());
        }
        let count = self.data.len();
        let mut i: usize = 0;
        while i < count
            invariant
                i <= count,
                count == self.data@.len(),
                *self == *old(self),
                self.all_inside(self.boundary),
                0 <= self.depth < MAX_DEPTH,
                top_left.wf(),
                top_right.wf(),
                bottom_left.wf(),
                bottom_right.wf(),
                top_left.depth == self.depth + 1,
                top_right.depth == self.depth + 1,
                bottom_left.depth == self.depth + 1,
                bottom_right.depth == self.depth + 1,
                top_left.boundary == top_left_of(self.boundary),
                top_right.boundary == top_right_of(self.boundary),
                bottom_left.boundary == bottom_left_of(self.boundary),
                bottom_right.boundary == bottom_right_of(self.boundary),
                top_right.all_outside(top_left_of(self.boundary)),
                bottom_left.all_outside(top_left_of(self.boundary)),
                bottom_left.all_outside(top_right_of(self.boundary)),
                bottom_right.all_outside(top_left_of(self.boundary)),
                bottom_right.all_outside(top_right_of(self.boundary)),
                bottom_right.all_outside(bottom_left_of(self.boundary)),
                top_left.items().add(top_right.items()).add(bottom_left.items()).add(
                    bottom_right.items(),
                ) == self.data@.subrange(0, i as int).to_multiset(),
                sorted_into(self.data@, self.boundary, 0, i as nat).len() <= MAX_CAPACITY
                    || self.depth + 1 == MAX_DEPTH ==> top_left.is_leaf_with(
                    sorted_into(self.data@, self.boundary, 0, i as nat),
                ),
                sorted_into(self.data@, self.boundary, 1, i as nat).len() <= MAX_CAPACITY
                    || self.depth + 1 == MAX_DEPTH ==> top_right.is_leaf_with(
                    sorted_into(self.data@, self.boundary, 1, i as nat),
                ),
                sorted_into(self.data@, self.boundary, 2, i as nat).len() <= MAX_CAPACITY
                    || self.depth + 1 == MAX_DEPTH ==> bottom_left.is_leaf_with(
                    sorted_into(self.data@, self.boundary, 2, i as nat),
                ),
                sorted_into(self.data@, self.boundary, 3, i as nat).len() <= MAX_CAPACITY
                    || self.depth + 1 == MAX_DEPTH ==> bottom_right.is_leaf_with(
                    sorted_into(self.data@, self.boundary, 3, i as nat),
                ),
            decreases count - i,
        {
            let item = self.data[i];
            proof {
                assert(self.data@.subrange(0, i + 1) == self.data@.subrange(0, i as int).push(
                    item,
                ));
                vstd::seq_lib::to_multiset_contains(self.data@, item);
                assert(self.data@[i as int] == item);
                assert(self.data@.to_multiset().contains(item));
                assert(self.items().contains(item));
                lemma_quadrants_cover(self.boundary, item.position_spec());
            }
            let ghost tl = top_left_of(self.boundary);
            let ghost tr = top_right_of(self.boundary);
            let ghost bl = bottom_left_of(self.boundary);
            let ghost tr_items = top_right.items();
            let ghost bl_items = bottom_left.items();
            let ghost br_items = bottom_right.items();
            let ghost before = top_left.items().add(top_right.items()).add(
                bottom_left.items(),
            ).add(bottom_right.items());
            if !top_left.add_data(item) {
                if !top_right.add_data(item) {
                    if !bottom_left.add_data(item) {
                        let stored = bottom_right.add_data(item);
                        assert(stored);
                    }
                }
            }
            proof {
                assert(top_left.items().add(top_right.items()).add(bottom_left.items()).add(
                    bottom_right.items(),
                ) =~= before.insert(item));
                vstd::seq_lib::to_multiset_build(self.data@.subrange(0, i as int), item);
                assert(self.data@.subrange(0, i + 1).to_multiset() == before.insert(item));
                let p = item.position_spec();
                if tl.contains_spec(p) {
                } else if tr.contains_spec(p) {
                    lemma_insert_none_in(tr_items, item, tl);
                } else if bl.contains_spec(p) {
                    lemma_insert_none_in(bl_items, item, tl);
                    lemma_insert_none_in(bl_items, item, tr);
                } else {
                    lemma_insert_none_in(br_items, item, tl);
                    lemma_insert_none_in(br_items, item, tr);
                    lemma_insert_none_in(br_items, item, bl);
                }
            }
            i += 1;
        }
        proof {
            assert(self.data@.subrange(0, count as int) == self.data@);
        }
        self.data = Vec::new();
        self.top_left = Some(Box::new(top_left));
        self.top_right = Some(Box::new(top_right));
        self.bottom_left = Some(Box::new(bottom_left));
        self.bottom_right = Some(Box::new(bottom_right));
        self.has_children = true;
        proof {
            assert(self.data@.to_multiset() =~= Multiset::<T>::empty());
            assert(old(self).items() =~= old(self).data@.to_multiset());
            assert(self.items() =~= old(self).items());
        }
    }
}

/// A lookup in a well-formed tree finds a bucket exactly for the points of
/// the tree's box.
pub proof fn lemma_find_iff_contains<T: Positional + Copy>(tree: QuadTree<T>, point: Position)
    requires
        tree.wf(),
    ensures
        tree.find_spec(point) is Some <==> tree.boundary.contains_spec(point),
        tree.leaf_boundary(point) is Some <==> tree.boundary.contains_spec(point),
    decreases tree,
{
    if tree.boundary.contains_spec(point) && tree.has_children {
        lemma_quadrants_cover(tree.boundary, point);
        lemma_find_iff_contains(*tree.top_left->0, point);
        lemma_find_iff_contains(*tree.top_right->0, point);
        lemma_find_iff_contains(*tree.bottom_left->0, point);
        lemma_find_iff_contains(*tree.bottom_right->0, point);
    }
}

/// For a point of the tree's box, the lookup ends in a leaf whose box holds
/// the point, and every item of the bucket it returns lies in that box.
pub proof fn lemma_find_leaf<T: Positional + Copy>(tree: QuadTree<T>, point: Position)
    requires
        tree.wf(),
        tree.boundary.contains_spec(point),
    ensures
        tree.find_spec(point) is Some,
        tree.leaf_boundary(point) is Some,
        tree.leaf_boundary(point)->0.contains_spec(point),
        forall|i: int|
            0 <= i < tree.find_spec(point)->0.len() ==> tree.leaf_boundary(
                point,
            )->0.contains_spec(#[trigger] tree.find_spec(point)->0[i].position_spec()),
    decreases tree,
{
    broadcast use vstd::multiset::group_multiset_axioms;

    if tree.has_children {
        lemma_quadrants_cover(tree.boundary, point);
        if tree.top_left->0.boundary.contains_spec(point) {
            lemma_find_leaf(*tree.top_left->0, point);
        } else if tree.top_right->0.boundary.contains_spec(point) {
            lemma_find_leaf(*tree.top_right->0, point);
        } else if tree.bottom_left->0.boundary.contains_spec(point) {
            lemma_find_leaf(*tree.bottom_left->0, point);
        } else {
            lemma_find_leaf(*tree.bottom_right->0, point);
        }
    } else {
        assert forall|i: int| 0 <= i < tree.data@.len() implies tree.boundary.contains_spec(
            #[trigger] tree.data@[i].position_spec(),
        ) by {
            vstd::seq_lib::to_multiset_contains(tree.data@, tree.data@[i]);
            assert(tree.data@.contains(tree.data@[i]));
            assert(tree.data@.to_multiset().contains(tree.data@[i]));
            assert(tree.items().contains(tree.data@[i]));
        }
    }
}

/// A point on an edge that two quadrants share belongs to the one listed
/// first: top left, then top right, then bottom left, then bottom right.
pub proof fn lemma_shared_edge_goes_to_first<T: Positional + Copy>(
    tree: QuadTree<T>,
    point: Position,
)
    requires
        tree.wf(),
        tree.has_children,
        tree.boundary.contains_spec(point),
    ensures
        top_left_of(tree.boundary).contains_spec(point) ==> tree.find_spec(point)
            == tree.top_left->0.find_spec(point),
        !top_left_of(tree.boundary).contains_spec(point) && top_right_of(
            tree.boundary,
        ).contains_spec(point) ==> tree.find_spec(point) == tree.top_right->0.find_spec(point),
        !top_left_of(tree.boundary).contains_spec(point) && !top_right_of(
            tree.boundary,
        ).contains_spec(point) && bottom_left_of(tree.boundary).contains_spec(point)
            ==> tree.find_spec(point) == tree.bottom_left->0.find_spec(point),
        !top_left_of(tree.boundary).contains_spec(point) && !top_right_of(
            tree.boundary,
        ).contains_spec(point) && !bottom_left_of(tree.boundary).contains_spec(point)
            ==> tree.find_spec(point) == tree.bottom_right->0.find_spec(point),
{
    lemma_quadrants_cover(tree.boundary, point);
}

/// Every item of a well-formed tree is in the bucket that a lookup of its
/// own position returns.
pub proof fn lemma_item_is_found<T: Positional + Copy>(tree: QuadTree<T>, item: T)
    requires
        tree.wf(),
        tree.items().contains(item),
    ensures
        tree.find_spec(item.position_spec()) is Some,
        tree.find_spec(item.position_spec())->0.contains(item),
    decreases tree,
{
    broadcast use vstd::multiset::group_multiset_axioms;

    let p = item.position_spec();
    if tree.has_children {
        broadcast use vstd::seq_lib::group_to_multiset_ensures;
        assert(tree.data@.to_multiset().len() == 0);
        assert(tree.data@.to_multiset() =~= Multiset::<T>::empty());
        let tl = *tree.top_left->0;
        let tr = *tree.top_right->0;
        let bl = *tree.bottom_left->0;
        let br = *tree.bottom_right->0;
        if tl.items().contains(item) {
            lemma_item_is_found(tl, item);
        } else if tr.items().contains(item) {
            lemma_item_is_found(tr, item);
        } else if bl.items().contains(item) {
            lemma_item_is_found(bl, item);
        } else {
            assert(br.items().contains(item));
            lemma_item_is_found(br, item);
        }
    } else {
        assert(tree.items() =~= tree.data@.to_multiset());
        vstd::seq_lib::to_multiset_contains(tree.data@, item);
    }
}

} // verus!
