//! The quadtree node: insertion with capacity-triggered subdivision, and
//! range queries pruned by boundary intersection.
use vstd::prelude::*;

use crate::geometry::{
    Point, Positioned, Rectangle, NORTH_EAST, NORTH_WEST, SOUTH_EAST, SOUTH_WEST,
};

verus! {

/// Number of entries a node holds before it splits.
pub const NODE_CAPACITY: usize = 4;

/// Why an entry was not inserted.
#[derive(Clone, Copy, Debug, PartialEq, Eq, Structural)]
pub enum InsertError {
    /// The entry's position lies outside the node's boundary.
    OutOfBounds,
    /// The node contains the position but none of its quadrants accepted
    /// it. The quadrants of a well-formed node cover it, so a well-formed
    /// tree never reports this.
    InternalConsistency,
}

/// A node of a point-region quadtree. The root node is the tree.
pub struct Quadtree<'a, T: Positioned> {
    boundary: Rectangle,
    entries: Vec<&'a T>,
    quadrants: Option<Box<Quadrants<'a, T>>>,
}

/// The four children of a node that has split.
struct Quadrants<'a, T: Positioned> {
    north_west: Quadtree<'a, T>,
    north_east: Quadtree<'a, T>,
    south_west: Quadtree<'a, T>,
    south_east: Quadtree<'a, T>,
}

impl<'a, T: Positioned> Quadtree<'a, T> {
    /// The rectangle this node is responsible for.
    pub closed spec fn region(self) -> Rectangle {
        self.boundary
    }

    /// The node has not split.
    pub closed spec fn is_leaf(self) -> bool {
        self.quadrants is None
    }

    /// The entries held directly at this node, in insertion order.
    pub closed spec fn own_entries(self) -> Seq<&'a T> {
        self.entries@
    }

    /// Every entry of the subtree: this node's own entries, then those of
    /// the north-west, north-east, south-west and south-east quadrants.
    pub closed spec fn contents(self) -> Seq<&'a T>
        decreases self,
    {
        match self.quadrants {
            None => self.entries@,
            Some(q) => self.entries@ + q.north_west.contents() + q.north_east.contents()
                + q.south_west.contents() + q.south_east.contents(),
        }
    }

    /// Depth of the subtree below this node.
    pub closed spec fn height(self) -> nat
        decreases self,
    {
        match self.quadrants {
            None => 0,
            Some(q) => 1 + vstd::math::max(
                vstd::math::max(q.north_west.height() as int, q.north_east.height() as int),
                vstd::math::max(q.south_west.height() as int, q.south_east.height() as int),
            ) as nat,
        }
    }

    /// The invariant of every node: a well-formed boundary, at most
    /// `NODE_CAPACITY` own entries, each within the boundary, and, once
    /// split, exactly `NODE_CAPACITY` own entries and four well-formed
    /// children whose boundaries are the quadrants of this one.
    pub closed spec fn wf(self) -> bool
        decreases self,
    {
        &&& self.boundary.wf()
        &&& self.entries@.len() <= NODE_CAPACITY
        &&& forall|i: int|
            0 <= i < self.entries@.len() ==> self.boundary.spec_contains(
                #[trigger] self.entries@[i].spec_position(),
            )
        &&& match self.quadrants {
            None => true,
            Some(q) => {
                &&& self.entries@.len() == NODE_CAPACITY
                &&& q.north_west.boundary == self.boundary.quadrant(0)
                &&& q.north_east.boundary == self.boundary.quadrant(1)
                &&& q.south_west.boundary == self.boundary.quadrant(2)
                &&& q.south_east.boundary == self.boundary.quadrant(3)
                &&& q.north_west.wf()
                &&& q.north_east.wf()
                &&& q.south_west.wf()
                &&& q.south_east.wf()
            },
        }
    }

    /// `after` is `before` with `e` stored where insertion puts it: appended
    /// to the own entries of a leaf with room; in a full leaf, which keeps
    /// its entries and splits, alone in the first quadrant that contains
    /// its position; in a split node, which keeps its entries, placed in the
    /// same way in the first quadrant that contains its position, the other
    /// quadrants unchanged. Boundaries never change.
    pub closed spec fn placed(before: Self, after: Self, e: &'a T) -> bool
        decreases before,
    {
        let p = e.spec_position();
        let k = before.boundary.first_quadrant_containing(p);
        &&& after.boundary == before.boundary
        &&& match before.quadrants {
            None => if before.entries@.len() < NODE_CAPACITY {
                after.quadrants is None && after.entries@ == before.entries@.push(e)
            } else {
                &&& after.entries@ == before.entries@
                &&& after.quadrants matches Some(nq) && {
                    &&& Self::fresh_or_single(nq.north_west, before.boundary.quadrant(0), k == 0, e)
                    &&& Self::fresh_or_single(nq.north_east, before.boundary.quadrant(1), k == 1, e)
                    &&& Self::fresh_or_single(nq.south_west, before.boundary.quadrant(2), k == 2, e)
                    &&& Self::fresh_or_single(nq.south_east, before.boundary.quadrant(3), k == 3, e)
                }
            },
            Some(q) => {
                &&& after.entries@ == before.entries@
                &&& after.quadrants matches Some(nq) && {
                    &&& if k == 0 {
                        Self::placed(q.north_west, nq.north_west, e)
                    } else {
                        nq.north_west == q.north_west
                    }
                    &&& if k == 1 {
                        Self::placed(q.north_east, nq.north_east, e)
                    } else {
                        nq.north_east == q.north_east
                    }
                    &&& if k == 2 {
                        Self::placed(q.south_west, nq.south_west, e)
                    } else {
                        nq.south_west == q.south_west
                    }
                    &&& if k == 3 {
                        Self::placed(q.south_east, nq.south_east, e)
                    } else {
                        nq.south_east == q.south_east
                    }
                }
            },
        }
    }

    /// A leaf covering `boundary` that holds `e` alone if `holds`, and
    /// nothing otherwise.
    closed spec fn fresh_or_single(n: Self, boundary: Rectangle, holds: bool, e: &'a T) -> bool {
        &&& n.boundary == boundary
        &&& n.quadrants is None
        &&& n.entries@ == if holds { seq![e] } else { Seq::<&'a T>::empty() }
    }

    /// The entries of the subtree whose position lies in `range`, in the
    /// order of `contents`.
    pub open spec fn query_spec(self, range: Rectangle) -> Seq<&'a T> {
        self.contents().filter(Self::in_range(range))
    }

    /// Selects the entries whose position lies in `range`.
    pub open spec fn in_range(range: Rectangle) -> spec_fn(&'a T) -> bool {
        |e: &'a T| range.spec_contains(e.spec_position())
    }

    /// Makes a leaf with no entries that covers `boundary`.
    pub fn new(boundary: Rectangle) -> (r: Quadtree<'a, T>)
        requires
            boundary.wf(),
        ensures
            r.wf(),
            r.region() == boundary,
            r.is_leaf(),
            r.own_entries() == Seq::<&'a T>::empty(),
            r.contents() == Seq::<&'a T>::empty(),
    {
        Quadtree { boundary, entries: Vec::new(), quadrants: None }
    }

    /// Splits a leaf: installs four empty leaves whose boundaries are the
    /// quadrants of this node's boundary. The node's own entries stay where
    /// they are.
    fn subdivide(&mut self)
        requires
            old(self).wf(),
            old(self).is_leaf(),
            old(self).entries@.len() == NODE_CAPACITY,
        ensures
            final(self).wf(),
            final(self).boundary == old(self).boundary,
            final(self).entries == old(self).entries,
            final(self).contents() == old(self).contents(),
            final(self).quadrants matches Some(q) && {
                &&& q.north_west.boundary == old(self).boundary.quadrant(0)
                &&& q.north_east.boundary == old(self).boundary.quadrant(1)
                &&& q.south_west.boundary == old(self).boundary.quadrant(2)
                &&& q.south_east.boundary == old(self).boundary.quadrant(3)
                &&& q.north_west.is_fresh()
                &&& q.north_east.is_fresh()
                &&& q.south_west.is_fresh()
                &&& q.south_east.is_fresh()
            },
    {
        let north_west = Quadtree::new(self.boundary.quadrant_of(NORTH_WEST));
        let north_east = Quadtree::new(self.boundary.quadrant_of(NORTH_EAST));
        let south_west = Quadtree::new(self.boundary.quadrant_of(SOUTH_WEST));
        let south_east = Quadtree::new(self.boundary.quadrant_of(SOUTH_EAST));
        self.quadrants = Some(Box::new(Quadrants { north_west, north_east, south_west, south_east }));
        proof {
            let q = self.quadrants->Some_0;
            assert(q.north_west.contents() =~= Seq::<&'a T>::empty());
            assert(self.contents() =~= old(self).contents());
        }
    }

    /// A leaf with no entries.
    spec fn is_fresh(self) -> bool {
        self.quadrants is None && self.entries@.len() == 0
    }

    /// Stores `entry` in the subtree: at this node while it is a leaf with
    /// room, else in the first quadrant (north-west, north-east, south-west,
    /// south-east) that contains its position, splitting the node first if
    /// needed. It succeeds exactly when the boundary contains the position.
    pub fn insert(&mut self, entry: &'a T) -> (r: Result<(), InsertError>)
        requires
            old(self).wf(),
        ensures
            final(self).wf(),
            final(self).region() == old(self).region(),
            r is Ok <==> old(self).region().spec_contains(entry.spec_position()),
            r is Err ==> r == Err::<(), InsertError>(InsertError::OutOfBounds) && *final(self)
                == *old(self),
            r is Ok ==> Self::placed(*old(self), *final(self), entry),
            r is Ok ==> final(self).contents().to_multiset() == old(
                self,
            ).contents().to_multiset().insert(entry),
            r is Ok ==> exists|k: int|
                0 <= k <= old(self).contents().len() && final(self).contents() == old(
                    self,
                ).contents().insert(k, entry),
            r is Ok && old(self).is_leaf() ==> final(self).contents() == old(
                self,
            ).contents().push(entry),
            !old(self).is_leaf() ==> !final(self).is_leaf(),
            r is Ok && old(self).own_entries().len() == NODE_CAPACITY ==> !final(self).is_leaf(),
            old(self).is_leaf() ==> final(self).height() <= 1,
            old(self).is_leaf() && old(self).own_entries().len() < NODE_CAPACITY ==> {
                &&& final(self).is_leaf()
                &&& r is Ok ==> final(self).own_entries() == old(self).own_entries().push(entry)
            },
            !(old(self).is_leaf() && old(self).own_entries().len() < NODE_CAPACITY)
                ==> final(self).own_entries() == old(self).own_entries(),
        decreases old(self).height(), old(self).own_entries().len(),
    {
        broadcast use vstd::seq_lib::group_to_multiset_ensures, vstd::seq_lib::lemma_multiset_commutative;

        if !self.boundary.contains(entry) {
            return Err(InsertError::OutOfBounds);
        }
        proof {
            crate::geometry::lemma_quadrants_tile(self.boundary);
        }
        if self.entries.len() < NODE_CAPACITY && self.quadrants.is_none() {
            self.entries.push(entry);
            proof {
                lemma_push_is_insert_at_end(old(self).entries@, entry);
                assert(self.contents() == old(self).contents().insert(
                    old(self).contents().len() as int,
                    entry,
                ));
            }
            return Ok(());
        }
        if self.quadrants.is_none() {
            self.subdivide();
        }
        let mut q = self.quadrants.take().unwrap();
        let ghost q0 = *q;
        let ghost mut w: int = 0;
        let r = if q.north_west.insert(entry).is_ok() {
            Ok(())
        } else if q.north_east.insert(entry).is_ok() {
            Ok(())
        } else if q.south_west.insert(entry).is_ok() {
            Ok(())
        } else if q.south_east.insert(entry).is_ok() {
            Ok(())
        } else {
            // The quadrants cover this node's boundary, so one of them has
            // accepted the entry; the contract rules this branch out.
            Err(InsertError::InternalConsistency)
        };
        proof {
            assert(seq![entry] =~= Seq::<&'a T>::empty().push(entry));
            let k = self.boundary.first_quadrant_containing(entry.spec_position());
            if old(self).is_leaf() {
                assert(q0.north_west.entries@ =~= Seq::<&'a T>::empty());
                assert(q0.north_east.entries@ =~= Seq::<&'a T>::empty());
                assert(q0.south_west.entries@ =~= Seq::<&'a T>::empty());
                assert(q0.south_east.entries@ =~= Seq::<&'a T>::empty());
                assert(Self::fresh_or_single(q.north_west, self.boundary.quadrant(0), k == 0, entry));
                assert(Self::fresh_or_single(q.north_east, self.boundary.quadrant(1), k == 1, entry));
                assert(Self::fresh_or_single(q.south_west, self.boundary.quadrant(2), k == 2, entry));
                assert(Self::fresh_or_single(q.south_east, self.boundary.quadrant(3), k == 3, entry));
            }
            if r is Ok {
                if old(self).is_leaf() {
                    lemma_push_is_insert_at_end(old(self).contents(), entry);
                    w = old(self).contents().len() as int;
                } else {
                    let e0 = q0.north_west.contents();
                    let e1 = q0.north_east.contents();
                    let e2 = q0.south_west.contents();
                    let e3 = q0.south_east.contents();
                    let s0 = self.entries@;
                    if k == 0 {
                        let kc = choose|j: int| 0 <= j <= e0.len() && q.north_west.contents() == e0.insert(j, entry);
                        w = s0.len() + kc;
                        lemma_insert_shifts(s0, e0, kc, entry);
                        lemma_insert_before(s0 + e0, e1, s0.len() + kc, entry);
                        lemma_insert_before(s0 + e0 + e1, e2, s0.len() + kc, entry);
                        lemma_insert_before(s0 + e0 + e1 + e2, e3, s0.len() + kc, entry);
                    } else if k == 1 {
                        let kc = choose|j: int| 0 <= j <= e1.len() && q.north_east.contents() == e1.insert(j, entry);
                        w = s0.len() + e0.len() + kc;
                        lemma_insert_shifts(s0 + e0, e1, kc, entry);
                        lemma_insert_before(s0 + e0 + e1, e2, s0.len() + e0.len() + kc, entry);
                        lemma_insert_before(s0 + e0 + e1 + e2, e3, s0.len() + e0.len() + kc, entry);
                    } else if k == 2 {
                        let kc = choose|j: int| 0 <= j <= e2.len() && q.south_west.contents() == e2.insert(j, entry);
                        w = s0.len() + e0.len() + e1.len() + kc;
                        lemma_insert_shifts(s0 + e0 + e1, e2, kc, entry);
                        lemma_insert_before(s0 + e0 + e1 + e2, e3, s0.len() + e0.len() + e1.len() + kc, entry);
                    } else {
                        let kc = choose|j: int| 0 <= j <= e3.len() && q.south_east.contents() == e3.insert(j, entry);
                        w = s0.len() + e0.len() + e1.len() + e2.len() + kc;
                        lemma_insert_shifts(s0 + e0 + e1 + e2, e3, kc, entry);
                    }
                }
            }
            if old(self).is_leaf() {
                assert(q.north_west.height() == 0);
                assert(q.north_east.height() == 0);
                assert(q.south_west.height() == 0);
                assert(q.south_east.height() == 0);
            }
        }
        self.quadrants = Some(q);
        proof {
            if r is Ok {
                assert(self.contents() == old(self).contents().insert(w, entry));
            }
        }
        r
    }

    /// Every entry of the subtree lies within this node's boundary.
    proof fn lemma_contents_within(self)
        requires
            self.wf(),
        ensures
            forall|i: int|
                0 <= i < self.contents().len() ==> self.boundary.spec_contains(
                    #[trigger] self.contents()[i].spec_position(),
                ),
        decreases self,
    {
        match self.quadrants {
            None => {},
            Some(q) => {
                q.north_west.lemma_contents_within();
                q.north_east.lemma_contents_within();
                q.south_west.lemma_contents_within();
                q.south_east.lemma_contents_within();
                let b = self.boundary;
                assert(b.spec_covers(b.quadrant(0)));
                assert(b.spec_covers(b.quadrant(1)));
                assert(b.spec_covers(b.quadrant(2)));
                assert(b.spec_covers(b.quadrant(3)));
                let s0 = self.entries@;
                let s1 = s0 + q.north_west.contents();
                let s2 = s1 + q.north_east.contents();
                let s3 = s2 + q.south_west.contents();
                assert forall|i: int| 0 <= i < self.contents().len() implies b.spec_contains(
                    #[trigger] self.contents()[i].spec_position(),
                ) by {
                    if i < s0.len() {
                    } else if i < s1.len() {
                        assert(self.contents()[i] == q.north_west.contents()[i - s0.len()]);
                    } else if i < s2.len() {
                        assert(self.contents()[i] == q.north_east.contents()[i - s1.len()]);
                    } else if i < s3.len() {
                        assert(self.contents()[i] == q.south_west.contents()[i - s2.len()]);
                    } else {
                        assert(self.contents()[i] == q.south_east.contents()[i - s3.len()]);
                    }
                }
            },
        }
    }

    /// A range that does not meet the boundary selects no entry of the
    /// subtree.
    proof fn lemma_disjoint_range_selects_nothing(self, range: Rectangle)
        requires
            self.wf(),
            !self.boundary.spec_intersects(range),
        ensures
            self.query_spec(range).len() == 0,
    {
        self.lemma_contents_within();
        let pred = Self::in_range(range);
        assert(self.contents().all(|e: &'a T| !pred(e)));
        self.contents().lemma_all_neg_filter_empty(pred);
    }

    /// The entries of the subtree whose position lies in `range`: this
    /// node's own entries first, in insertion order, then those found in the
    /// north-west, north-east, south-west and south-east quadrants.
    pub fn query(&self, range: &Rectangle) -> (r: Vec<&'a T>)
        requires
            self.wf(),
        ensures
            r@ == self.query_spec(*range),
        decreases self.height(),
    {
        broadcast use Seq::filter_distributes_over_add, Seq::lemma_filter_push;

        let ghost pred = Self::in_range(*range);
        let mut result: Vec<&'a T> = Vec::new();
        if !self.boundary.intersects(range) {
            proof {
                self.lemma_disjoint_range_selects_nothing(*range);
                assert(result@ =~= self.query_spec(*range));
            }
            return result;
        }
        let mut i: usize = 0;
        while i < self.entries.len()
            invariant
                i <= self.entries@.len(),
                pred == Self::in_range(*range),
                result@ == self.entries@.subrange(0, i as int).filter(pred),
            decreases self.entries@.len() - i,
        {
            let entry = self.entries[i];
            proof {
                assert(self.entries@.subrange(0, i + 1) =~= self.entries@.subrange(0, i as int).push(entry));
                self.entries@.subrange(0, i as int).lemma_filter_push(entry, pred);
            }
            if range.contains(entry) {
                result.push(entry);
            }
            i = i + 1;
        }
        proof {
            assert(self.entries@.subrange(0, i as int) =~= self.entries@);
        }
        match &self.quadrants {
            None => result,
            Some(q) => {
                let mut found = q.north_west.query(range);
                result.append(&mut found);
                let mut found = q.north_east.query(range);
                result.append(&mut found);
                let mut found = q.south_west.query(range);
                result.append(&mut found);
                let mut found = q.south_east.query(range);
                result.append(&mut found);
                result
            },
        }
    }

    /// A query whose range contains the position of `e` returns `e` exactly
    /// as many times as the tree holds it; so an entry inserted once is
    /// returned once.
    pub proof fn lemma_query_finds_stored(self, range: Rectangle, e: &'a T)
        requires
            range.spec_contains(e.spec_position()),
        ensures
            self.query_spec(range).to_multiset().count(e) == self.contents().to_multiset().count(e),
    {
        lemma_filter_keeps_count(self.contents(), Self::in_range(range), e);
    }

    /// After a successful insertion of an entry that the tree did not hold,
    /// a query whose range contains the entry's position returns it exactly
    /// once.
    pub proof fn lemma_round_trip(before: Self, after: Self, e: &'a T, range: Rectangle)
        requires
            !before.contents().contains(e),
            after.contents().to_multiset() == before.contents().to_multiset().insert(e),
            range.spec_contains(e.spec_position()),
        ensures
            after.query_spec(range).to_multiset().count(e) == 1,
    {
        broadcast use vstd::seq_lib::group_to_multiset_ensures;

        after.lemma_query_finds_stored(range, e);
    }

    /// A query never returns an entry whose position lies outside its range.
    pub proof fn lemma_query_excludes_outside(self, range: Rectangle, e: &'a T)
        requires
            !range.spec_contains(e.spec_position()),
        ensures
            !self.query_spec(range).contains(e),
    {
        broadcast use Seq::lemma_filter_contains_rev;

    }

    /// A query whose range covers the root's boundary returns every entry of
    /// the tree, each as often as it was stored, in the order of `contents`.
    pub proof fn lemma_full_query_returns_contents(self, range: Rectangle)
        requires
            self.wf(),
            range.spec_covers(self.region()),
        ensures
            self.query_spec(range) == self.contents(),
    {
        self.lemma_contents_within();
        lemma_filter_all_pass(self.contents(), Self::in_range(range));
    }

    /// Two queries with the same range on the same tree return the same
    /// entries, in the same order.
    pub proof fn lemma_query_deterministic(self, range: Rectangle, first: Seq<&'a T>, second: Seq<&'a T>)
        requires
            first == self.query_spec(range),
            second == self.query_spec(range),
        ensures
            first == second,
    {
    }

    /// A query whose range does not meet the root's boundary returns
    /// nothing.
    pub proof fn lemma_query_outside_is_empty(self, range: Rectangle)
        requires
            self.wf(),
            !range.spec_intersects(self.region()),
        ensures
            self.query_spec(range).len() == 0,
    {
        self.lemma_disjoint_range_selects_nothing(range);
    }
}

proof fn lemma_push_is_insert_at_end<A>(s: Seq<A>, e: A)
    ensures
        s.push(e) == s.insert(s.len() as int, e),
{
    assert(s.push(e) =~= s.insert(s.len() as int, e));
}

/// Inserting into the second part of a concatenation inserts into the whole
/// at the shifted index.
proof fn lemma_insert_shifts<A>(a: Seq<A>, b: Seq<A>, k: int, e: A)
    requires
        0 <= k <= b.len(),
    ensures
        a + b.insert(k, e) == (a + b).insert(a.len() + k, e),
{
    assert(a + b.insert(k, e) =~= (a + b).insert(a.len() + k, e));
}

/// Inserting into the first part of a concatenation inserts into the whole
/// at the same index.
proof fn lemma_insert_before<A>(a: Seq<A>, b: Seq<A>, k: int, e: A)
    requires
        0 <= k <= a.len(),
    ensures
        a.insert(k, e) + b == (a + b).insert(k, e),
{
    assert(a.insert(k, e) + b =~= (a + b).insert(k, e));
}

/// Filtering keeps every copy of an element that the predicate selects.
proof fn lemma_filter_keeps_count<A>(s: Seq<A>, pred: spec_fn(A) -> bool, e: A)
    requires
        pred(e),
    ensures
        s.filter(pred).to_multiset().count(e) == s.to_multiset().count(e),
    decreases s.len(),
{
    broadcast use vstd::seq_lib::group_to_multiset_ensures, Seq::lemma_filter_push;

    if s.len() > 0 {
        let init = s.drop_last();
        lemma_filter_keeps_count(init, pred, e);
        assert(s =~= init.push(s.last()));
    }
}

/// Filtering with a predicate that every element meets changes nothing.
proof fn lemma_filter_all_pass<A>(s: Seq<A>, pred: spec_fn(A) -> bool)
    requires
        forall|i: int| 0 <= i < s.len() ==> pred(#[trigger] s[i]),
    ensures
        s.filter(pred) == s,
    decreases s.len(),
{
    broadcast use Seq::lemma_filter_push;

    if s.len() > 0 {
        let init = s.drop_last();
        lemma_filter_all_pass(init, pred);
        assert(s =~= init.push(s.last()));
    } else {
        assert(s.filter(pred) =~= s);
    }
}

} // verus!
