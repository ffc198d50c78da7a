//! The quadtree itself: its nodes, what they hold, the invariant every
//! operation keeps, and the operations that build and empty it.
use vstd::prelude::*;
use vstd::seq_lib::lemma_multiset_commutative;

pub mod items;
pub mod query;
pub mod show;

use crate::bounds::{
    law_quadrant_inside, contains_at, contains_spec, edges_fit, get_quadrant_bounds, quadrant_at, quadrant_bounds,
    quadrant_of, scale_up, scaled, scaled_fits, Bounded, Bounds, Quadrant, SCALE,
};

verus! {

broadcast use {
    vstd::seq_lib::group_to_multiset_ensures,
    vstd::multiset::group_multiset_axioms,
    vstd::multiset::lemma_multiset_empty_len,
};

/// A data structure for inserting and querying elements located in 2D space.
///
/// Querying returns references to the inserted objects.
pub struct QuadTree<'a, T> {
    capacity: usize,
    depth: usize,
    max_depth: usize,
    bounds: Bounds,
    elements: Vec<Entry<'a, T>>,
    children: Option<Box<Children<'a, T>>>,
}

/// The four subtrees of a node that has been split.
struct Children<'a, T> {
    tl: QuadTree<'a, T>,
    tr: QuadTree<'a, T>,
    br: QuadTree<'a, T>,
    bl: QuadTree<'a, T>,
}

/// How many elements a node holds before it splits.
pub const CAPACITY: usize = 4;

/// How deep the tree grows: nodes at this depth never split.
pub const MAX_DEPTH: usize = 10;

/// An element of the tree, with the area its `bounds` method gave when it
/// was inserted.
pub type Entry<'a, T> = (&'a T, Bounds);

/// The area an entry occupies.
pub open spec fn area<'a, T>(e: Entry<'a, T>) -> Bounds {
    e.1
}

/// The quadrant of a node's area `b` (in units of `1 / SCALE`) in which an
/// element's area `r` fits, if there is one.
pub open spec fn node_quadrant(b: Bounds, r: Bounds) -> Option<Quadrant> {
    quadrant_of(b, r, SCALE as int)
}

/// An element's area `r` lies inside a node's area `b`.
pub open spec fn node_contains(b: Bounds, r: Bounds) -> bool {
    contains_spec(b, r, SCALE as int)
}

/// `w` can be halved `n` times without remainder.
pub open spec fn halves_evenly(w: int, n: nat) -> bool
    decreases n,
{
    n == 0 || (w % 2 == 0 && halves_evenly(w / 2, (n - 1) as nat))
}

/// Every entry that `in_quadrant` picks fits as asked.
pub proof fn lemma_in_quadrant_fits<'a, T>(s: Seq<Entry<'a, T>>, b: Bounds, q: Option<Quadrant>)
    ensures
        forall|i: int|
            0 <= i < in_quadrant(s, b, q).len() ==> node_quadrant(
                b,
                area(#[trigger] in_quadrant(s, b, q)[i]),
            ) == q,
    decreases s.len(),
{
    if s.len() > 0 {
        lemma_in_quadrant_fits(s.drop_last(), b, q);
    }
}

/// A length in units of `1 / SCALE` can be halved ten times exactly.
proof fn lemma_scaled_halves_evenly(w: int)
    ensures
        halves_evenly(SCALE * w, 10),
{
    assert(halves_evenly(w, 0));
    assert(halves_evenly(2 * w, 1));
    assert(halves_evenly(4 * w, 2));
    assert(halves_evenly(8 * w, 3));
    assert(halves_evenly(16 * w, 4));
    assert(halves_evenly(32 * w, 5));
    assert(halves_evenly(64 * w, 6));
    assert(halves_evenly(128 * w, 7));
    assert(halves_evenly(256 * w, 8));
    assert(halves_evenly(512 * w, 9));
    assert(halves_evenly(1024 * w, 10));
}

/// Appending an entry to `s` appends it to the picked entries when it fits
/// as asked.
pub proof fn lemma_in_quadrant_push<'a, T>(
    s: Seq<Entry<'a, T>>,
    b: Bounds,
    q: Option<Quadrant>,
    e: Entry<'a, T>,
)
    ensures
        in_quadrant(s.push(e), b, q) == if node_quadrant(b, area(e)) == q {
            in_quadrant(s, b, q).push(e)
        } else {
            in_quadrant(s, b, q)
        },
{
    assert(s.push(e).drop_last() == s);
}

/// The entries of `s`, in order, whose areas fit quadrant `q` of `b`, or,
/// for `None`, fit no quadrant of `b`.
pub open spec fn in_quadrant<'a, T>(s: Seq<Entry<'a, T>>, b: Bounds, q: Option<Quadrant>) -> Seq<
    Entry<'a, T>,
>
    decreases s.len(),
{
    if s.len() == 0 {
        Seq::empty()
    } else {
        let before = in_quadrant(s.drop_last(), b, q);
        if node_quadrant(b, area(s.last())) == q {
            before.push(s.last())
        } else {
            before
        }
    }
}

impl<'a, T> Children<'a, T> {
    /// The subtree of quadrant `q`.
    spec fn child(&self, q: Quadrant) -> QuadTree<'a, T> {
        match q {
            Quadrant::TL => self.tl,
            Quadrant::TR => self.tr,
            Quadrant::BR => self.br,
            Quadrant::BL => self.bl,
        }
    }
}

impl<'a, T> QuadTree<'a, T> {
    /// Every element of the tree, in the order a full iteration yields them:
    /// the node's own elements first, then those of the top left, top right,
    /// bottom right and bottom left subtrees.
    pub closed spec fn view(&self) -> Seq<Entry<'a, T>>
        decreases self,
    {
        self.elements@ + match self.children {
            None => Seq::<Entry<'a, T>>::empty(),
            Some(c) => c.tl.view() + c.tr.view() + c.br.view() + c.bl.view(),
        }
    }

    /// The elements held by this node itself, not by its subtrees.
    pub closed spec fn node_elements(&self) -> Seq<Entry<'a, T>> {
        self.elements@
    }

    /// The elements of the subtrees, in iteration order.
    pub closed spec fn children_view(&self) -> Seq<Entry<'a, T>> {
        match self.children {
            None => Seq::<Entry<'a, T>>::empty(),
            Some(c) => c.tl.view() + c.tr.view() + c.br.view() + c.bl.view(),
        }
    }

    /// The area this node covers.
    pub closed spec fn region(&self) -> Bounds {
        self.bounds
    }

    /// How deep this node lies below the root.
    pub closed spec fn level(&self) -> nat {
        self.depth as nat
    }

    /// The depth at which nodes stop splitting.
    pub closed spec fn depth_limit(&self) -> nat {
        self.max_depth as nat
    }

    /// How many elements a node holds before it splits.
    pub closed spec fn node_capacity(&self) -> nat {
        self.capacity as nat
    }

    /// Whether this node has been split into four subtrees.
    pub closed spec fn is_split(&self) -> bool {
        self.children is Some
    }

    /// The subtree of quadrant `q`, where the node has been split.
    pub closed spec fn subtree(&self, q: Quadrant) -> QuadTree<'a, T>
        recommends
            self.is_split(),
    {
        self.children->0.child(q)
    }

    /// The number of nodes of the tree.
    pub closed spec fn size(&self) -> nat
        decreases self,
    {
        1 + match self.children {
            None => 0nat,
            Some(c) => c.tl.size() + c.tr.size() + c.br.size() + c.bl.size(),
        }
    }

    /// The tree's elements split into the node's own and its subtrees'.
    pub proof fn lemma_view_parts(&self)
        ensures
            self.view() == self.node_elements() + self.children_view(),
            self.view().to_multiset() == self.node_elements().to_multiset().add(
                self.children_view().to_multiset(),
            ),
    {
        lemma_multiset_commutative(self.elements@, self.children_view());
    }

    /// How a node's size and its subtrees' elements follow from its subtrees.
    pub proof fn lemma_subtrees(&self)
        ensures
            self.size() >= 1,
            self.is_split() ==> self.size() == 1 + self.subtree(Quadrant::TL).size() + self.subtree(
                Quadrant::TR,
            ).size() + self.subtree(Quadrant::BR).size() + self.subtree(Quadrant::BL).size(),
            self.is_split() ==> self.children_view() == self.subtree(Quadrant::TL).view()
                + self.subtree(Quadrant::TR).view() + self.subtree(Quadrant::BR).view()
                + self.subtree(Quadrant::BL).view(),
            self.is_split() ==> self.children_view().to_multiset() == self.subtree(
                Quadrant::TL,
            ).view().to_multiset().add(self.subtree(Quadrant::TR).view().to_multiset()).add(
                self.subtree(Quadrant::BR).view().to_multiset(),
            ).add(self.subtree(Quadrant::BL).view().to_multiset()),
            !self.is_split() ==> self.children_view() == Seq::<Entry<'a, T>>::empty() && self.size()
                == 1,
    {
        if self.is_split() {
            Self::lemma_children_multiset(*self.children->0);
        }
    }

    /// The subtrees' elements, as a multiset, are those of the four subtrees.
    proof fn lemma_children_multiset(c: Children<'a, T>)
        ensures
            (c.tl.view() + c.tr.view() + c.br.view() + c.bl.view()).to_multiset()
                == c.tl.view().to_multiset().add(c.tr.view().to_multiset()).add(
                c.br.view().to_multiset(),
            ).add(c.bl.view().to_multiset()),
    {
        lemma_multiset_commutative(c.tl.view(), c.tr.view());
        lemma_multiset_commutative(c.tl.view() + c.tr.view(), c.br.view());
        lemma_multiset_commutative(c.tl.view() + c.tr.view() + c.br.view(), c.bl.view());
    }
}

impl<'a, T> QuadTree<'a, T> {
    /// `child` is a proper subtree of this node for quadrant `q`: one level
    /// deeper, with the same limits, covering quadrant `q` of this node's area,
    /// and holding only elements that fit in quadrant `q`.
    pub closed spec fn child_fits(&self, child: QuadTree<'a, T>, q: Quadrant) -> bool {
        &&& child.depth == self.depth + 1
        &&& child.capacity == self.capacity
        &&& child.max_depth == self.max_depth
        &&& child.bounds == quadrant_bounds(self.bounds, q)
        &&& forall|i: int|
            0 <= i < child.view().len() ==> node_quadrant(
                self.bounds,
                area(#[trigger] child.view()[i]),
            ) == Some(q)
    }

    /// What holds of a node, apart from its subtrees' own invariants and the
    /// limit on how many elements an unsplit node holds.
    pub closed spec fn inv_local(&self) -> bool {
        &&& self.depth <= self.max_depth
        &&& edges_fit(self.bounds)
        &&& halves_evenly(self.bounds.width as int, (self.max_depth - self.depth) as nat)
        &&& halves_evenly(self.bounds.height as int, (self.max_depth - self.depth) as nat)
        &&& match self.children {
            None => true,
            Some(c) => {
                &&& self.depth < self.max_depth
                &&& self.view().len() > self.capacity
                &&& forall|i: int|
                    0 <= i < self.elements@.len() ==> node_quadrant(
                        self.bounds,
                        area(#[trigger] self.elements@[i]),
                    ) is None
                &&& self.child_fits(c.tl, Quadrant::TL)
                &&& self.child_fits(c.tr, Quadrant::TR)
                &&& self.child_fits(c.br, Quadrant::BR)
                &&& self.child_fits(c.bl, Quadrant::BL)
            },
        }
    }

    /// An unsplit node holds at most its capacity, unless it lies at the
    /// depth limit.
    pub closed spec fn within_capacity(&self) -> bool {
        self.children is None ==> (self.elements@.len() <= self.capacity
            || self.depth >= self.max_depth)
    }

    /// The invariant of the quadtree, in every node:
    /// - no node lies deeper than the depth limit, and only nodes above it split;
    /// - a node's area can be halved exactly down to the depth limit;
    /// - a split node holds, with its subtrees, more than its capacity;
    /// - an unsplit node holds at most its capacity, unless it lies at the limit;
    /// - a split node keeps only the elements that fit in none of its quadrants;
    /// - each subtree covers its quadrant of its parent's area, and every element
    ///   in it fits in that quadrant.
    pub closed spec fn wf(&self) -> bool
        decreases self,
    {
        &&& self.inv_local()
        &&& self.within_capacity()
        &&& match self.children {
            None => true,
            Some(c) => c.tl.wf() && c.tr.wf() && c.br.wf() && c.bl.wf(),
        }
    }

    /// The shape the tree keeps: no node lies deeper than the depth limit;
    /// above it, a node is split exactly when it holds, with its subtrees,
    /// more than its capacity; each subtree lies one level deeper with the same
    /// limits, covers its quadrant of its parent's area, and holds only
    /// elements that fit in that quadrant.
    pub proof fn law_tree_shape(&self)
        requires
            self.wf(),
        ensures
            self.level() <= self.depth_limit(),
            self.is_split() ==> self.level() < self.depth_limit() && self.view().len()
                > self.node_capacity(),
            !self.is_split() && self.level() < self.depth_limit() ==> self.node_elements().len()
                <= self.node_capacity(),
            self.level() < self.depth_limit() ==> (self.is_split() <==> self.view().len()
                > self.node_capacity()),
            forall|q: Quadrant|
                self.is_split() ==> {
                    &&& (#[trigger] self.subtree(q)).wf()
                    &&& self.subtree(q).level() == self.level() + 1
                    &&& self.subtree(q).depth_limit() == self.depth_limit()
                    &&& self.subtree(q).node_capacity() == self.node_capacity()
                    &&& self.subtree(q).region() == quadrant_bounds(self.region(), q)
                    &&& forall|i: int|
                        0 <= i < self.subtree(q).view().len() ==> node_quadrant(
                            self.region(),
                            area(#[trigger] self.subtree(q).view()[i]),
                        ) == Some(q)
                },
    {
        assert forall|q: Quadrant| self.is_split() implies {
            &&& (#[trigger] self.subtree(q)).wf()
            &&& self.subtree(q).level() == self.level() + 1
            &&& self.subtree(q).depth_limit() == self.depth_limit()
            &&& self.subtree(q).node_capacity() == self.node_capacity()
            &&& self.subtree(q).region() == quadrant_bounds(self.region(), q)
            &&& forall|i: int|
                0 <= i < self.subtree(q).view().len() ==> node_quadrant(
                    self.region(),
                    area(#[trigger] self.subtree(q).view()[i]),
                ) == Some(q)
        } by {
            assert(self.child_fits(self.subtree(q), q));
        }
        self.lemma_view_parts();
        self.lemma_subtrees();
    }

    /// Every element of a subtree lies inside the subtree's area, where the
    /// tree's area has non-negative width and height.
    pub proof fn law_subtree_elements_inside(&self, q: Quadrant)
        requires
            self.wf(),
            self.is_split(),
            self.region().width >= 0,
            self.region().height >= 0,
        ensures
            forall|i: int|
                0 <= i < self.subtree(q).view().len() ==> node_contains(
                    self.subtree(q).region(),
                    area(#[trigger] self.subtree(q).view()[i]),
                ),
    {
        self.law_tree_shape();
        assert(self.bounds.width % 2 == 0);
        assert(self.bounds.height % 2 == 0);
        assert forall|i: int| 0 <= i < self.subtree(q).view().len() implies node_contains(
            self.subtree(q).region(),
            area(#[trigger] self.subtree(q).view()[i]),
        ) by {
            law_quadrant_inside(self.bounds, area(self.subtree(q).view()[i]), SCALE as int);
        }
    }

    /// An element of the tree that the node does not hold itself lies in the
    /// subtree of the quadrant its area fits in.
    pub proof fn lemma_in_subtree(&self, x: Entry<'a, T>)
        requires
            self.wf(),
            self.view().contains(x),
            !self.node_elements().contains(x),
        ensures
            self.is_split(),
            node_quadrant(self.region(), area(x)) is Some,
            self.subtree(node_quadrant(self.region(), area(x))->0).view().contains(x),
    {
        self.lemma_subtrees();
        self.lemma_view_parts();
        let i = self.view().index_of(x);
        if i < self.elements@.len() {
            assert(self.elements@[i] == x);
        }
        let k = i - self.elements@.len();
        assert(self.children_view()[k] == x);
        let tl = self.subtree(Quadrant::TL).view();
        let tr = self.subtree(Quadrant::TR).view();
        let br = self.subtree(Quadrant::BR).view();
        let bl = self.subtree(Quadrant::BL).view();
        let (q, j) = if k < tl.len() {
            (Quadrant::TL, k)
        } else if k < tl.len() + tr.len() {
            (Quadrant::TR, k - tl.len())
        } else if k < tl.len() + tr.len() + br.len() {
            (Quadrant::BR, k - tl.len() - tr.len())
        } else {
            (Quadrant::BL, k - tl.len() - tr.len() - br.len())
        };
        assert(self.subtree(q).view()[j] == x);
        assert(self.child_fits(self.subtree(q), q));
    }

    /// Where the elements of a split node lie: one that fits in a quadrant of
    /// the node's area lies in that quadrant's subtree, any other in the node
    /// itself.
    pub proof fn law_element_placement(&self, x: Entry<'a, T>)
        requires
            self.wf(),
            self.is_split(),
            self.view().contains(x),
        ensures
            node_quadrant(self.region(), area(x)) is None <==> self.node_elements().contains(x),
            node_quadrant(self.region(), area(x)) is Some ==> self.subtree(
                node_quadrant(self.region(), area(x))->0,
            ).view().contains(x),
    {
        if self.elements@.contains(x) {
            let m = self.elements@.index_of(x);
            assert(node_quadrant(self.region(), area(self.elements@[m])) is None);
        } else {
            self.lemma_in_subtree(x);
        }
    }

    /// After an insertion the tree holds one element more: the new one, and
    /// every element it held before as often as before.
    pub proof fn law_insert_adds_one(
        before: QuadTree<'a, T>,
        after: QuadTree<'a, T>,
        element: &'a T,
        bounds: Bounds,
    )
        requires
            after.view().to_multiset() == before.view().to_multiset().insert((element, bounds)),
        ensures
            after.view().len() == before.view().len() + 1,
            after.view().contains((element, bounds)),
            forall|x: Entry<'a, T>|
                x != (element, bounds) ==> after.view().to_multiset().count(x)
                    == before.view().to_multiset().count(x),
    {
        assert(after.view().to_multiset().count((element, bounds)) > 0);
        assert(after.view().to_multiset().len() == after.view().len());
        assert(before.view().to_multiset().len() == before.view().len());
    }

    /// A tree built from an empty one by inserting `entries` in turn holds
    /// exactly those entries, each as often as it was inserted, and so
    /// `entries.len()` of them.
    pub proof fn law_inserts_collect(trees: Seq<QuadTree<'a, T>>, entries: Seq<Entry<'a, T>>)
        requires
            trees.len() == entries.len() + 1,
            trees[0].view().len() == 0,
            forall|i: int|
                0 <= i < entries.len() ==> #[trigger] trees[i + 1].view().to_multiset()
                    == trees[i].view().to_multiset().insert(entries[i]),
        ensures
            trees.last().view().to_multiset() == entries.to_multiset(),
            trees.last().view().len() == entries.len(),
        decreases entries.len(),
    {
        if entries.len() == 0 {
            assert(trees[0].view() =~= Seq::<Entry<'a, T>>::empty());
            assert(entries =~= Seq::<Entry<'a, T>>::empty());
        } else {
            let n = entries.len() - 1;
            let t = trees.drop_last();
            let e = entries.drop_last();
            assert forall|i: int| 0 <= i < e.len() implies #[trigger] t[i + 1].view().to_multiset()
                == t[i].view().to_multiset().insert(e[i]) by {
                assert(t[i + 1] == trees[i + 1]);
                assert(t[i] == trees[i]);
            }
            Self::law_inserts_collect(t, e);
            assert(entries == e.push(entries[n]));
            assert(trees.last() == trees[n + 1]);
            assert(t.last() == trees[n]);
        }
        assert(trees.last().view().to_multiset().len() == trees.last().view().len());
        assert(entries.to_multiset().len() == entries.len());
    }

    /// Constructs a new quadtree containing the specified bounds.
    ///
    /// The tree keeps the area in units of `1 / SCALE`, so that halving it
    /// is exact down to the depth limit; the area's coordinates, width,
    /// height and far edges must therefore stay representable as `i64` once
    /// multiplied by `SCALE` (magnitudes up to about 9·10^15).
    pub fn new(bounds: Bounds) -> (qt: QuadTree<'a, T>)
        requires
            scaled_fits(bounds),
        ensures
            qt.wf(),
            qt.view() == Seq::<Entry<'a, T>>::empty(),
            qt.region() == scaled(bounds),
            qt.region().x == SCALE * bounds.x,
            qt.region().y == SCALE * bounds.y,
            qt.region().width == SCALE * bounds.width,
            qt.region().height == SCALE * bounds.height,
            qt.level() == 0,
            qt.node_capacity() == CAPACITY,
            qt.depth_limit() == MAX_DEPTH,
            !qt.is_split(),
    {
        let qt = QuadTree {
            capacity: CAPACITY,
            max_depth: MAX_DEPTH,
            depth: 0,
            bounds: scale_up(&bounds),
            elements: Vec::new(),
            children: None,
        };
        proof {
            lemma_scaled_halves_evenly(bounds.width as int);
            lemma_scaled_halves_evenly(bounds.height as int);
            assert(qt.view() =~= Seq::<Entry<'a, T>>::empty());
        }
        qt
    }

    /// The quadrant of this node in which `r` fits entirely, if there is one.
    fn get_quadrant(&self, r: &Bounds) -> (q: Option<Quadrant>)
        ensures
            q == node_quadrant(self.bounds, *r),
    {
        quadrant_at(&self.bounds, r, SCALE)
    }

    /// Whether `r` lies inside this node's area.
    fn contains(&self, r: &Bounds) -> (c: bool)
        ensures
            c == node_contains(self.bounds, *r),
    {
        contains_at(&self.bounds, r, SCALE)
    }

    /// Inserts an element into the quadtree, at the area that its `bounds`
    /// method gives: the entry added is the element with an area that a call
    /// of `bounds` on it returns.
    pub fn insert(&mut self, element: &'a T)
        where
            T: Bounded,
        requires
            old(self).wf(),
        ensures
            exists|b: Bounds|
                call_ensures(T::bounds, (element,), b) && inserted(*old(self), *final(self), element, b),
    {
        let bounds = element.bounds();
        self.insert_with_bounds(element, bounds);
    }

    /// Inserts an element occupying `bounds` into the quadtree.
    ///
    /// An element that fits in a quadrant of a split node goes down into that
    /// quadrant's subtree; any other element stays in the node. An unsplit node
    /// that comes to hold more than its capacity splits.
    pub fn insert_with_bounds(&mut self, element: &'a T, bounds: Bounds)
        requires
            old(self).wf(),
        ensures
            inserted(*old(self), *final(self), element, bounds),
        decreases old(self).depth_limit() - old(self).level(), 3nat,
    {
        let q = self.get_quadrant(&bounds);
        if self.children.is_some() {
            match q {
                Some(q) => self.insert_into_subtree(element, bounds, q),
                None => self.insert_here(element, bounds),
            }
        } else {
            self.insert_into_leaf(element, bounds);
        }
    }

    /// Inserts into the subtree of quadrant `q` of a split node, where the
    /// element's area fits.
    fn insert_into_subtree(&mut self, element: &'a T, bounds: Bounds, q: Quadrant)
        requires
            old(self).wf(),
            old(self).is_split(),
            node_quadrant(old(self).bounds, bounds) == Some(q),
        ensures
            inserted(*old(self), *final(self), element, bounds),
        decreases old(self).depth_limit() - old(self).level(), 2nat,
    {
        proof {
            self.law_tree_shape();
        }
        let boxed = self.children.take().unwrap();
        let ghost old_c = *boxed;
        let mut c = *boxed;
        proof {
            assert(old(self).subtree(q) == c.child(q));
        }
        match q {
            Quadrant::TL => c.tl.insert_with_bounds(element, bounds),
            Quadrant::TR => c.tr.insert_with_bounds(element, bounds),
            Quadrant::BR => c.br.insert_with_bounds(element, bounds),
            Quadrant::BL => c.bl.insert_with_bounds(element, bounds),
        }
        self.children = Some(Box::new(c));
        proof {
            assert(forall|p: Quadrant| #[trigger] self.subtree(p) == c.child(p));
            assert(forall|p: Quadrant| #[trigger] old(self).subtree(p) == old_c.child(p));
            Self::lemma_replace_subtree(*old(self), *self, q, (element, bounds));
        }
    }

    /// Inserting into the subtree of the quadrant an entry fits inserts it
    /// into the tree.
    proof fn lemma_replace_subtree(
        before: QuadTree<'a, T>,
        after: QuadTree<'a, T>,
        q: Quadrant,
        e: Entry<'a, T>,
    )
        requires
            before.wf(),
            before.is_split(),
            after.is_split(),
            node_quadrant(before.bounds, area(e)) == Some(q),
            after.depth == before.depth,
            after.capacity == before.capacity,
            after.max_depth == before.max_depth,
            after.bounds == before.bounds,
            after.elements == before.elements,
            forall|p: Quadrant| p != q ==> #[trigger] after.subtree(p) == before.subtree(p),
            inserted(before.subtree(q), after.subtree(q), e.0, e.1),
        ensures
            inserted(before, after, e.0, e.1),
    {
        before.lemma_view_parts();
        before.lemma_subtrees();
        after.lemma_view_parts();
        after.lemma_subtrees();
        before.law_tree_shape();
        assert(before.child_fits(before.subtree(q), q));
        before.lemma_insert_keeps_fit(before.subtree(q), after.subtree(q), q, e);
        assert(after.view().to_multiset() == before.view().to_multiset().insert(e));
        assert(after.view().to_multiset().len() == after.view().len());
        assert(before.view().to_multiset().len() == before.view().len());
        assert(after.view().len() == before.view().len() + 1);
        assert(after.child_fits(after.subtree(Quadrant::TL), Quadrant::TL));
        assert(after.child_fits(after.subtree(Quadrant::TR), Quadrant::TR));
        assert(after.child_fits(after.subtree(Quadrant::BR), Quadrant::BR));
        assert(after.child_fits(after.subtree(Quadrant::BL), Quadrant::BL));
        assert(after.inv_local());
        assert(after.wf());
    }

    /// Appends an element that fits no quadrant to a split node's own ones.
    fn insert_here(&mut self, element: &'a T, bounds: Bounds)
        requires
            old(self).wf(),
            old(self).is_split(),
            node_quadrant(old(self).bounds, bounds) is None,
        ensures
            inserted(*old(self), *final(self), element, bounds),
    {
        proof {
            self.lemma_view_parts();
        }
        self.elements.push((element, bounds));
        proof {
            assert(self.elements@.drop_last() == old(self).elements@);
            self.lemma_view_parts();
            assert(self.children_view() == old(self).children_view());
            assert(self.view().to_multiset().len() == self.view().len());
            assert(old(self).view().to_multiset().len() == old(self).view().len());
            assert(self.inv_local());
            assert(self.within_capacity());
            assert(self.wf());
            assert(self.view().to_multiset() == old(self).view().to_multiset().insert((element, bounds)));
        }
    }

    /// Appends an element to an unsplit node, which splits once it holds
    /// more than its capacity.
    fn insert_into_leaf(&mut self, element: &'a T, bounds: Bounds)
        requires
            old(self).wf(),
            !old(self).is_split(),
        ensures
            inserted(*old(self), *final(self), element, bounds),
        decreases old(self).depth_limit() - old(self).level(), 2nat,
    {
        proof {
            self.lemma_view_parts();
            self.lemma_subtrees();
        }
        self.elements.push((element, bounds));
        proof {
            self.lemma_view_parts();
            assert(self.view() =~= old(self).view().push((element, bounds)));
        }
        if self.elements.len() > self.capacity {
            self.split();
        }
        proof {
            self.lemma_view_parts();
            assert(self.view().to_multiset().len() == self.view().len());
            assert(old(self).view().to_multiset().len() == old(self).view().len());
        }
    }

    /// The number of elements in the quadtree.
    pub fn len(&self) -> (n: usize)
        requires
            self.view().len() <= usize::MAX,
        ensures
            n == self.view().len(),
        decreases self,
    {
        proof {
            self.lemma_view_parts();
        }
        let mut count = self.elements.len();
        match &self.children {
            Some(c) => {
                assert(self.children_view() == c.tl.view() + c.tr.view() + c.br.view()
                    + c.bl.view());
                count += c.tl.len();
                count += c.tr.len();
                count += c.br.len();
                count += c.bl.len();
            },
            None => {},
        }
        count
    }

    /// Removes every element, and the subtrees with them.
    pub fn clear(&mut self)
        requires
            old(self).wf(),
        ensures
            final(self).wf(),
            final(self).view() == Seq::<Entry<'a, T>>::empty(),
            !final(self).is_split(),
            final(self).region() == old(self).region(),
            final(self).level() == old(self).level(),
            final(self).node_capacity() == old(self).node_capacity(),
            final(self).depth_limit() == old(self).depth_limit(),
        decreases old(self).size(),
    {
        self.elements.clear();
        match self.children.take() {
            Some(boxed) => {
                let mut c = *boxed;
                c.tl.clear();
                c.tr.clear();
                c.br.clear();
                c.bl.clear();
            },
            None => {},
        }
        self.children = None;
        assert(self.view() =~= Seq::<Entry<'a, T>>::empty());
    }

    /// Splits an unsplit node into four subtrees and moves down every element
    /// that fits in one of its quadrants, in order; the node keeps the others,
    /// in order. At the depth limit it does nothing.
    fn split(&mut self)
        requires
            old(self).inv_local(),
            !old(self).is_split(),
            old(self).elements@.len() > old(self).capacity,
        ensures
            final(self).wf(),
            final(self).view().to_multiset() == old(self).view().to_multiset(),
            final(self).bounds == old(self).bounds,
            final(self).depth == old(self).depth,
            final(self).capacity == old(self).capacity,
            final(self).max_depth == old(self).max_depth,
            old(self).depth >= old(self).max_depth ==> *final(self) == *old(self),
            old(self).depth < old(self).max_depth ==> {
                &&& final(self).is_split()
                &&& final(self).node_elements() == in_quadrant(
                    old(self).elements@,
                    old(self).bounds,
                    None,
                )
                &&& forall|q: Quadrant|
                    #[trigger] final(self).subtree(q).receives(
                        old(self).elements@,
                        old(self).bounds,
                        q,
                    )
            },
        decreases old(self).depth_limit() - old(self).level(), 1nat,
    {
        if self.depth >= self.max_depth {
            return;
        }
        let mut tl = self.new_child(Quadrant::TL);
        let mut tr = self.new_child(Quadrant::TR);
        let mut br = self.new_child(Quadrant::BR);
        let mut bl = self.new_child(Quadrant::BL);
        let mut new_elements: Vec<Entry<'a, T>> = Vec::new();
        let mut i: usize = 0;
        proof {
            let e0 = self.elements@.take(0);
            assert(e0 =~= Seq::<Entry<'a, T>>::empty());
            assert(new_elements@ =~= in_quadrant(e0, self.bounds, None));
            assert(tl.view() =~= in_quadrant(e0, self.bounds, Some(Quadrant::TL)));
            assert(tr.view() =~= in_quadrant(e0, self.bounds, Some(Quadrant::TR)));
            assert(br.view() =~= in_quadrant(e0, self.bounds, Some(Quadrant::BR)));
            assert(bl.view() =~= in_quadrant(e0, self.bounds, Some(Quadrant::BL)));
        }
        while i < self.elements.len()
            invariant
                i <= self.elements.len(),
                self.inv_local(),
                !self.is_split(),
                self.depth < self.max_depth,
                tl.wf(),
                tr.wf(),
                br.wf(),
                bl.wf(),
                self.child_fits(tl, Quadrant::TL),
                self.child_fits(tr, Quadrant::TR),
                self.child_fits(br, Quadrant::BR),
                self.child_fits(bl, Quadrant::BL),
                tl.receives(self.elements@.take(i as int), self.bounds, Quadrant::TL),
                tr.receives(self.elements@.take(i as int), self.bounds, Quadrant::TR),
                br.receives(self.elements@.take(i as int), self.bounds, Quadrant::BR),
                bl.receives(self.elements@.take(i as int), self.bounds, Quadrant::BL),
                new_elements@ == in_quadrant(self.elements@.take(i as int), self.bounds, None),
                new_elements@.to_multiset().add(tl.view().to_multiset()).add(
                    tr.view().to_multiset(),
                ).add(br.view().to_multiset()).add(bl.view().to_multiset())
                    == self.elements@.take(i as int).to_multiset(),
            decreases self.elements.len() - i,
        {
            let element = self.elements[i];
            let ghost prefix = self.elements@.take(i as int);
            proof {
                assert(self.elements@.take(i + 1) == prefix.push(element));
                lemma_in_quadrant_push(prefix, self.bounds, None, element);
                lemma_in_quadrant_push(prefix, self.bounds, Some(Quadrant::TL), element);
                lemma_in_quadrant_push(prefix, self.bounds, Some(Quadrant::TR), element);
                lemma_in_quadrant_push(prefix, self.bounds, Some(Quadrant::BR), element);
                lemma_in_quadrant_push(prefix, self.bounds, Some(Quadrant::BL), element);
            }
            match self.get_quadrant(&element.1) {
                Some(Quadrant::TL) => self.send_down(&mut tl, Quadrant::TL, Ghost(prefix), element),
                Some(Quadrant::TR) => self.send_down(&mut tr, Quadrant::TR, Ghost(prefix), element),
                Some(Quadrant::BR) => self.send_down(&mut br, Quadrant::BR, Ghost(prefix), element),
                Some(Quadrant::BL) => self.send_down(&mut bl, Quadrant::BL, Ghost(prefix), element),
                None => {
                    new_elements.push(element);
                },
            }
            i += 1;
        }
        proof {
            assert(self.elements@.take(i as int) == self.elements@);
        }
        self.attach(Children { tl, tr, br, bl }, new_elements);
    }

    /// Makes `c` the subtrees of this unsplit node, which keeps `kept`: the
    /// last step of a split.
    fn attach(&mut self, c: Children<'a, T>, kept: Vec<Entry<'a, T>>)
        requires
            old(self).inv_local(),
            !old(self).is_split(),
            old(self).depth < old(self).max_depth,
            old(self).elements@.len() > old(self).capacity,
            c.tl.wf(),
            c.tr.wf(),
            c.br.wf(),
            c.bl.wf(),
            old(self).child_fits(c.tl, Quadrant::TL),
            old(self).child_fits(c.tr, Quadrant::TR),
            old(self).child_fits(c.br, Quadrant::BR),
            old(self).child_fits(c.bl, Quadrant::BL),
            c.tl.receives(old(self).elements@, old(self).bounds, Quadrant::TL),
            c.tr.receives(old(self).elements@, old(self).bounds, Quadrant::TR),
            c.br.receives(old(self).elements@, old(self).bounds, Quadrant::BR),
            c.bl.receives(old(self).elements@, old(self).bounds, Quadrant::BL),
            kept@ == in_quadrant(old(self).elements@, old(self).bounds, None),
            kept@.to_multiset().add(c.tl.view().to_multiset()).add(c.tr.view().to_multiset()).add(
                c.br.view().to_multiset(),
            ).add(c.bl.view().to_multiset()) == old(self).elements@.to_multiset(),
        ensures
            final(self).wf(),
            final(self).view().to_multiset() == old(self).view().to_multiset(),
            final(self).bounds == old(self).bounds,
            final(self).depth == old(self).depth,
            final(self).capacity == old(self).capacity,
            final(self).max_depth == old(self).max_depth,
            final(self).is_split(),
            final(self).node_elements() == in_quadrant(old(self).elements@, old(self).bounds, None),
            forall|q: Quadrant|
                #[trigger] final(self).subtree(q).receives(old(self).elements@, old(self).bounds, q),
    {
        proof {
            Self::lemma_children_multiset(c);
            old(self).lemma_view_parts();
            lemma_in_quadrant_fits(old(self).elements@, old(self).bounds, None);
        }
        self.children = Some(Box::new(c));
        self.elements = kept;
        proof {
            self.lemma_view_parts();
            assert(self.view().to_multiset() == old(self).view().to_multiset());
            assert(self.view().to_multiset().len() == self.view().len());
            assert(old(self).view().to_multiset().len() == old(self).view().len());
            assert(forall|p: Quadrant| #[trigger] self.subtree(p) == c.child(p));
            assert(self.inv_local());
        }
    }

    /// Inserts `element`, which fits quadrant `q` of this node, into the
    /// subtree `child` being built for that quadrant during a split.
    fn send_down(
        &self,
        child: &mut QuadTree<'a, T>,
        q: Quadrant,
        Ghost(prefix): Ghost<Seq<Entry<'a, T>>>,
        element: Entry<'a, T>,
    )
        requires
            self.inv_local(),
            self.depth < self.max_depth,
            old(child).wf(),
            self.child_fits(*old(child), q),
            old(child).receives(prefix, self.bounds, q),
            node_quadrant(self.bounds, area(element)) == Some(q),
        ensures
            final(child).wf(),
            self.child_fits(*final(child), q),
            final(child).receives(prefix.push(element), self.bounds, q),
            final(child).view().to_multiset() == old(child).view().to_multiset().insert(element),
        decreases self.depth_limit() - self.level(), 0nat,
    {
        let ghost before = *child;
        child.insert_with_bounds(element.0, element.1);
        proof {
            self.lemma_insert_keeps_fit(before, *child, q, element);
            before.lemma_receives_next(*child, prefix, self.bounds, q, element);
        }
    }

    /// The subtree holds the entries of `s` that fit quadrant `q` of `b`;
    /// while they number at most its capacity, it is unsplit and holds them
    /// in order.
    pub open spec fn receives(&self, s: Seq<Entry<'a, T>>, b: Bounds, q: Quadrant) -> bool {
        &&& self.view().to_multiset() == in_quadrant(s, b, Some(q)).to_multiset()
        &&& in_quadrant(s, b, Some(q)).len() <= self.node_capacity() ==> !self.is_split()
            && self.view() == in_quadrant(s, b, Some(q))
    }

    /// A subtree that received the entries of `s` fitting quadrant `q`
    /// receives those of `s` and one more entry after that entry is inserted,
    /// or stays as it is when the entry fits another quadrant.
    proof fn lemma_receives_next(
        &self,
        after: QuadTree<'a, T>,
        s: Seq<Entry<'a, T>>,
        b: Bounds,
        q: Quadrant,
        e: Entry<'a, T>,
    )
        requires
            self.receives(s, b, q),
            self.wf(),
            node_quadrant(b, area(e)) == Some(q),
            inserted(*self, after, e.0, e.1),
        ensures
            after.receives(s.push(e), b, q),
    {
        lemma_in_quadrant_push(s, b, Some(q), e);
        let before = in_quadrant(s, b, Some(q));
        assert(before.push(e).to_multiset() == before.to_multiset().insert(e));
        self.lemma_view_parts();
        self.lemma_subtrees();
        if before.push(e).len() <= self.node_capacity() {
            assert(self.view().len() < self.node_capacity());
        }
    }

    /// An empty subtree for quadrant `q` of this node.
    fn new_child(&self, q: Quadrant) -> (child: QuadTree<'a, T>)
        requires
            self.inv_local(),
            self.depth < self.max_depth,
        ensures
            child.wf(),
            !child.is_split(),
            child.view() == Seq::<Entry<'a, T>>::empty(),
            self.child_fits(child, q),
    {
        let child = QuadTree {
            capacity: self.capacity,
            depth: self.depth + 1,
            max_depth: self.max_depth,
            bounds: get_quadrant_bounds(&self.bounds, q),
            elements: Vec::new(),
            children: None,
        };
        assert(child.view() =~= Seq::<Entry<'a, T>>::empty());
        child
    }

    /// A subtree that fitted quadrant `q` still fits it after an element
    /// that fits `q` is added to it.
    proof fn lemma_insert_keeps_fit(
        &self,
        before: QuadTree<'a, T>,
        after: QuadTree<'a, T>,
        q: Quadrant,
        element: Entry<'a, T>,
    )
        requires
            self.child_fits(before, q),
            after.depth == before.depth,
            after.capacity == before.capacity,
            after.max_depth == before.max_depth,
            after.bounds == before.bounds,
            after.view().to_multiset() == before.view().to_multiset().insert(element),
            node_quadrant(self.bounds, area(element)) == Some(q),
        ensures
            self.child_fits(after, q),
    {
        assert forall|i: int| 0 <= i < after.view().len() implies node_quadrant(
            self.bounds,
            area(#[trigger] after.view()[i]),
        ) == Some(q) by {
            let x = after.view()[i];
            assert(after.view().contains(x));
            assert(after.view().to_multiset().count(x) > 0);
            if x != element {
                assert(before.view().to_multiset().count(x) > 0);
                let j = before.view().index_of(x);
                assert(before.view()[j] == x);
            }
        }
    }
}

/// What an insertion of `element`, occupying `bounds`, makes of the tree
/// `before`:
/// - the tree stays well-formed, covering the same area at the same depth
///   with the same limits, and holds one more copy of the entry;
/// - an unsplit node that does not reach past its capacity (or lies at the
///   depth limit) stays unsplit and appends the entry;
/// - an unsplit node that comes to hold more than its capacity splits: it
///   keeps, in order, the entries that fit no quadrant, and each quadrant's
///   subtree receives, in order, those that fit it;
/// - a split node stays split; it appends an entry that fits none of its
///   quadrants to its own elements, and otherwise leaves its own elements and
///   the other quadrants' subtrees as they were.
pub open spec fn inserted<'a, T>(
    before: QuadTree<'a, T>,
    after: QuadTree<'a, T>,
    element: &'a T,
    bounds: Bounds,
) -> bool {
    &&& after.wf()
    &&& after.view().to_multiset() == before.view().to_multiset().insert((element, bounds))
    &&& after.region() == before.region()
    &&& after.level() == before.level()
    &&& after.node_capacity() == before.node_capacity()
    &&& after.depth_limit() == before.depth_limit()
    &&& !before.is_split() && (before.view().len() < before.node_capacity() || before.level()
        >= before.depth_limit()) ==> !after.is_split() && after.view() == before.view().push(
        (element, bounds),
    )
    &&& !before.is_split() && before.view().len() >= before.node_capacity() && before.level()
        < before.depth_limit() ==> {
        &&& after.is_split()
        &&& after.node_elements() == in_quadrant(
            before.view().push((element, bounds)),
            before.region(),
            None,
        )
        &&& forall|q: Quadrant|
            #[trigger] after.subtree(q).receives(
                before.view().push((element, bounds)),
                before.region(),
                q,
            )
    }
    &&& before.is_split() ==> after.is_split()
    &&& before.is_split() && node_quadrant(before.region(), bounds) is None ==> {
        &&& after.node_elements() == before.node_elements().push((element, bounds))
        &&& after.children_view() == before.children_view()
    }
    &&& before.is_split() && node_quadrant(before.region(), bounds) is Some ==> {
        &&& after.node_elements() == before.node_elements()
        &&& forall|q: Quadrant|
            Some(q) != node_quadrant(before.region(), bounds) ==> #[trigger] after.subtree(q)
                == before.subtree(q)
    }
}

} // verus!
