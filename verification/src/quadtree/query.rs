//! Queries: the elements of a quadtree near a given element.
use vstd::multiset::Multiset;
use vstd::prelude::*;

use super::{area, inserted, node_contains, node_quadrant, Entry, QuadTree};
use crate::bounds::{law_quadrants_apart, overlaps, Bounded, Bounds, Quadrant, SCALE};

verus! {

broadcast use {
    vstd::seq_lib::group_to_multiset_ensures,
    vstd::multiset::group_multiset_axioms,
};

/// An iterator over elements near a given query element.
///
/// It walks down from the root towards the quadrant in which the query
/// element fits, and keeps a stack of the subtrees it has still to visit.
pub struct QueryItems<'a, T> {
    root: &'a QuadTree<'a, T>,
    qt: &'a QuadTree<'a, T>,
    index: usize,
    element: &'a T,
    bounds: Bounds,
    next_qts: Vec<&'a QuadTree<'a, T>>,
}

/// The total number of nodes of the subtrees on `stack`.
pub open spec fn stack_size<'a, T>(stack: Seq<&'a QuadTree<'a, T>>) -> nat
    decreases stack.len(),
{
    if stack.len() == 0 {
        0
    } else {
        stack_size(stack.drop_last()) + stack.last().size()
    }
}

/// Pushing a subtree adds its nodes to the stack's total.
pub proof fn lemma_stack_size_push<'a, T>(stack: Seq<&'a QuadTree<'a, T>>, t: &'a QuadTree<'a, T>)
    ensures
        stack_size(stack.push(t)) == stack_size(stack) + t.size(),
{
    assert(stack.push(t).drop_last() =~= stack);
}

/// What a query for an element occupying `r` yields after the elements of
/// node `n`, with the subtrees on `stack` still to visit (the last first):
/// - from a split node, it goes on into the quadrant in which `r` fits;
/// - if `r` fits in no quadrant, it stops where `r` does not lie inside the
///   area `whole` of the entire tree, and otherwise goes on into the top left
///   quadrant, with the top right, bottom right and bottom left ones pushed
///   on the stack in that order;
/// - from an unsplit node, it goes on into the subtree it pops off the stack,
///   and stops when the stack is empty.
pub open spec fn query_after<'a, T>(
    n: QuadTree<'a, T>,
    r: Bounds,
    stack: Seq<&'a QuadTree<'a, T>>,
    whole: Bounds,
) -> Seq<Entry<'a, T>>
    decreases n.size() + stack_size(stack), 0nat,
{
    proof {
        n.lemma_subtrees();
    }
    if n.is_split() {
        match node_quadrant(n.region(), r) {
            Some(q) => query_from(n.subtree(q), r, stack, whole),
            None => if !node_contains(whole, r) {
                Seq::empty()
            } else {
                let s = stack.push(&n.subtree(Quadrant::TR)).push(&n.subtree(Quadrant::BR)).push(
                    &n.subtree(Quadrant::BL),
                );
                proof {
                    lemma_stack_size_push(stack, &n.subtree(Quadrant::TR));
                    lemma_stack_size_push(
                        stack.push(&n.subtree(Quadrant::TR)),
                        &n.subtree(Quadrant::BR),
                    );
                    lemma_stack_size_push(
                        stack.push(&n.subtree(Quadrant::TR)).push(&n.subtree(Quadrant::BR)),
                        &n.subtree(Quadrant::BL),
                    );
                }
                query_from(n.subtree(Quadrant::TL), r, s, whole)
            },
        }
    } else if stack.len() == 0 {
        Seq::empty()
    } else {
        query_from(*stack.last(), r, stack.drop_last(), whole)
    }
}

/// What a query for an element occupying `r` yields from node `n` on: the
/// node's elements, then what `query_after` gives.
pub open spec fn query_from<'a, T>(
    n: QuadTree<'a, T>,
    r: Bounds,
    stack: Seq<&'a QuadTree<'a, T>>,
    whole: Bounds,
) -> Seq<Entry<'a, T>>
    decreases n.size() + stack_size(stack), 1nat,
{
    n.node_elements() + query_after(n, r, stack, whole)
}

/// All the elements of the subtrees on `stack`, as a multiset.
pub open spec fn stack_elements<'a, T>(stack: Seq<&'a QuadTree<'a, T>>) -> Multiset<Entry<'a, T>>
    decreases stack.len(),
{
    if stack.len() == 0 {
        Multiset::empty()
    } else {
        stack_elements(stack.drop_last()).add(stack.last().view().to_multiset())
    }
}

/// Pushing a subtree adds its elements to those of the stack.
proof fn lemma_stack_elements_push<'a, T>(stack: Seq<&'a QuadTree<'a, T>>, t: &'a QuadTree<'a, T>)
    ensures
        stack_elements(stack.push(t)) == stack_elements(stack).add(t.view().to_multiset()),
{
    assert(stack.push(t).drop_last() =~= stack);
}

/// What a query yields after a node's own elements comes from the node's
/// subtrees and from the stack, each element at most as often as it is
/// stored there.
proof fn lemma_query_after_within<'a, T>(
    n: QuadTree<'a, T>,
    r: Bounds,
    stack: Seq<&'a QuadTree<'a, T>>,
    whole: Bounds,
)
    ensures
        query_after(n, r, stack, whole).to_multiset().subset_of(
            n.children_view().to_multiset().add(stack_elements(stack)),
        ),
    decreases n.size() + stack_size(stack), 0nat,
{
    n.lemma_subtrees();
    let s = stack_elements(stack);
    let out = query_after(n, r, stack, whole);
    if n.is_split() {
        let tl = n.subtree(Quadrant::TL).view().to_multiset();
        let tr = n.subtree(Quadrant::TR).view().to_multiset();
        let br = n.subtree(Quadrant::BR).view().to_multiset();
        let bl = n.subtree(Quadrant::BL).view().to_multiset();
        match node_quadrant(n.region(), r) {
            Some(q) => {
                lemma_query_from_within(n.subtree(q), r, stack, whole);
                assert forall|v: Entry<'a, T>| #[trigger]
                    out.to_multiset().count(v) <= n.children_view().to_multiset().add(s).count(v) by {
                    assert(out == query_from(n.subtree(q), r, stack, whole));
                    assert(n.subtree(q).view().to_multiset().count(v) <= tl.count(v) + tr.count(v)
                        + br.count(v) + bl.count(v));
                }
            },
            None => {
                if node_contains(whole, r) {
                    let s1 = stack.push(&n.subtree(Quadrant::TR));
                    let s2 = s1.push(&n.subtree(Quadrant::BR));
                    let s3 = s2.push(&n.subtree(Quadrant::BL));
                    lemma_stack_size_push(stack, &n.subtree(Quadrant::TR));
                    lemma_stack_size_push(s1, &n.subtree(Quadrant::BR));
                    lemma_stack_size_push(s2, &n.subtree(Quadrant::BL));
                    lemma_stack_elements_push(stack, &n.subtree(Quadrant::TR));
                    lemma_stack_elements_push(s1, &n.subtree(Quadrant::BR));
                    lemma_stack_elements_push(s2, &n.subtree(Quadrant::BL));
                    lemma_query_from_within(n.subtree(Quadrant::TL), r, s3, whole);
                    assert forall|v: Entry<'a, T>| #[trigger]
                        out.to_multiset().count(v) <= n.children_view().to_multiset().add(s).count(
                            v,
                        ) by {
                        assert(out == query_from(n.subtree(Quadrant::TL), r, s3, whole));
                    }
                } else {
                    assert(out =~= Seq::<Entry<'a, T>>::empty());
                }
            },
        }
    } else if stack.len() == 0 {
        assert(out =~= Seq::<Entry<'a, T>>::empty());
    } else {
        let last = *stack.last();
        let rest = stack.drop_last();
        lemma_query_from_within(last, r, rest, whole);
        assert(out == query_from(last, r, rest, whole));
    }
}

/// What a query yields from a node on comes from the node, its subtrees and
/// the stack, each element at most as often as it is stored there.
proof fn lemma_query_from_within<'a, T>(
    n: QuadTree<'a, T>,
    r: Bounds,
    stack: Seq<&'a QuadTree<'a, T>>,
    whole: Bounds,
)
    ensures
        query_from(n, r, stack, whole).to_multiset().subset_of(
            n.view().to_multiset().add(stack_elements(stack)),
        ),
    decreases n.size() + stack_size(stack), 1nat,
{
    lemma_query_after_within(n, r, stack, whole);
    n.lemma_view_parts();
    vstd::seq_lib::lemma_multiset_commutative(n.node_elements(), query_after(n, r, stack, whole));
}

/// A query yields only elements of the tree, and none more often than the
/// tree holds it.
pub proof fn law_query_within_tree<'a, T>(t: QuadTree<'a, T>, r: Bounds)
    ensures
        t.query_result(r).to_multiset().subset_of(t.view().to_multiset()),
{
    lemma_query_from_within(t, r, Seq::empty(), t.region());
    assert(stack_elements(Seq::<&'a QuadTree<'a, T>>::empty()) =~= Multiset::<Entry<'a, T>>::empty());
    assert(t.view().to_multiset().add(Multiset::<Entry<'a, T>>::empty()) =~= t.view().to_multiset());
}

impl<'a, T: Bounded> QuadTree<'a, T> {
    /// Returns an iterator over elements near a given element, which may or
    /// may not be in the quadtree.
    ///
    /// The query looks near the area that the element's `bounds` method gives.
    pub fn query(&'a self, element: &'a T) -> (it: QueryItems<'a, T>)
        ensures
            it.inv(),
            it.query_element() == element,
            call_ensures(T::bounds, (element,), it.query_area()),
            it.rest() == self.query_result(it.query_area()),
    {
        let bounds = element.bounds();
        self.query_with_bounds(element, bounds)
    }
}

impl<'a, T> QuadTree<'a, T> {
    /// What a query of this tree for an element occupying `r` yields.
    pub open spec fn query_result(&self, r: Bounds) -> Seq<Entry<'a, T>> {
        query_from(*self, r, Seq::empty(), self.region())
    }

    /// Returns an iterator over the elements near an element occupying
    /// `bounds`.
    pub fn query_with_bounds(&'a self, element: &'a T, bounds: Bounds) -> (it: QueryItems<'a, T>)
        ensures
            it.inv(),
            it.query_element() == element,
            it.query_area() == bounds,
            it.rest() == self.query_result(bounds),
    {
        let it = QueryItems { root: self, qt: self, index: 0, element, bounds, next_qts: Vec::new() };
        proof {
            assert(it.next_qts@ =~= Seq::<&'a QuadTree<'a, T>>::empty());
            assert(self.node_elements().skip(0) =~= self.node_elements());
        }
        it
    }
}

impl<'a, T> QueryItems<'a, T> {
    /// The index of the next element lies within the current node.
    pub closed spec fn inv(&self) -> bool {
        self.index <= self.qt.node_elements().len()
    }

    /// The element the query is for.
    pub closed spec fn query_element(&self) -> &'a T {
        self.element
    }

    /// The area the query looks near.
    pub closed spec fn query_area(&self) -> Bounds {
        self.bounds
    }

    /// The elements that the following calls of `next` yield, in order,
    /// before the first `None`.
    pub closed spec fn rest(&self) -> Seq<Entry<'a, T>> {
        self.qt.node_elements().skip(self.index as int) + query_after(
            *self.qt,
            self.bounds,
            self.next_qts@,
            self.root.region(),
        )
    }

    /// The number of nodes the query may still visit.
    spec fn nodes_left(&self) -> nat {
        self.qt.size() + stack_size(self.next_qts@)
    }

    /// Returns the next element near the query element, or `None` once there
    /// is none left; after a `None` every further call returns `None` too.
    pub fn next(&mut self) -> (r: Option<&'a T>)
        requires
            old(self).inv(),
        ensures
            final(self).inv(),
            final(self).query_element() == old(self).query_element(),
            final(self).query_area() == old(self).query_area(),
            r is Some <==> old(self).rest().len() > 0,
            r is Some ==> r == Some(old(self).rest()[0].0)
                && final(self).rest() == old(self).rest().drop_first(),
            r is None ==> final(self).rest() == Seq::<Entry<'a, T>>::empty(),
    {
        loop
            invariant
                self.inv(),
                self.root == old(self).root,
                self.element == old(self).element,
                self.bounds == old(self).bounds,
                self.rest() == old(self).rest(),
            decreases self.nodes_left(),
        {
            let qt: &'a QuadTree<'a, T> = self.qt;
            proof {
                qt.lemma_subtrees();
            }
            if self.index < qt.elements.len() {
                let e = qt.elements[self.index];
                proof {
                    let s = qt.node_elements();
                    assert(s.skip(self.index as int) =~= seq![e] + s.skip(self.index + 1));
                }
                self.index += 1;
                proof {
                    assert(self.rest() =~= old(self).rest().drop_first());
                }
                return Some(e.0);
            }
            let ghost r = self.bounds;
            let ghost stack = self.next_qts@;
            proof {
                assert(qt.node_elements().skip(self.index as int) =~= Seq::<Entry<'a, T>>::empty());
                assert(self.rest() =~= query_after(*qt, r, stack, self.root.region()));
            }
            let quadrant = qt.get_quadrant(&self.bounds);
            match &qt.children {
                Some(c) => {
                    match quadrant {
                        Some(q) => {
                            self.qt = match q {
                                Quadrant::TL => &c.tl,
                                Quadrant::TR => &c.tr,
                                Quadrant::BR => &c.br,
                                Quadrant::BL => &c.bl,
                            };
                            self.index = 0;
                            proof {
                                assert(*self.qt == qt.subtree(q));
                            }
                        },
                        None => {
                            // This handles the case where the query element lies outside
                            // the bounds of the entire quadtree.
                            if !self.root.contains(&self.bounds) {
                                return None;
                            }
                            self.qt = &c.tl;
                            self.next_qts.push(&c.tr);
                            self.next_qts.push(&c.br);
                            self.next_qts.push(&c.bl);
                            self.index = 0;
                            proof {
                                lemma_stack_size_push(stack, &c.tr);
                                lemma_stack_size_push(stack.push(&c.tr), &c.br);
                                lemma_stack_size_push(stack.push(&c.tr).push(&c.br), &c.bl);
                                assert(*self.qt == qt.subtree(Quadrant::TL));
                                assert(self.next_qts@ == stack.push(&qt.subtree(Quadrant::TR)).push(
                                    &qt.subtree(Quadrant::BR),
                                ).push(&qt.subtree(Quadrant::BL)));
                            }
                        },
                    }
                },
                None => {
                    match self.next_qts.pop() {
                        Some(next) => {
                            self.qt = next;
                            self.index = 0;
                        },
                        None => {
                            return None;
                        },
                    }
                },
            }
            proof {
                assert(self.qt.node_elements().skip(0) =~= self.qt.node_elements());
                assert(self.rest() =~= old(self).rest());
            }
        }
    }
}

/// The element `x` lies in one of the subtrees on `stack`.
pub open spec fn in_stack<'a, T>(stack: Seq<&'a QuadTree<'a, T>>, x: Entry<'a, T>) -> bool {
    exists|i: int| 0 <= i < stack.len() && (#[trigger] stack[i]).view().contains(x)
}

/// Every subtree on `stack` is well-formed.
pub open spec fn stack_wf<'a, T>(stack: Seq<&'a QuadTree<'a, T>>) -> bool {
    forall|i: int| 0 <= i < stack.len() ==> (#[trigger] stack[i]).wf()
}

/// A query for an element of the tree's own area yields, from node `n` on,
/// every element of `n` and of the subtrees on `stack` that overlaps it.
proof fn lemma_query_finds_all<'a, T>(
    n: QuadTree<'a, T>,
    r: Bounds,
    stack: Seq<&'a QuadTree<'a, T>>,
    whole: Bounds,
    x: Entry<'a, T>,
)
    requires
        node_contains(whole, r),
        n.wf(),
        stack_wf(stack),
        overlaps(area(x), r),
        n.view().contains(x) || in_stack(stack, x),
    ensures
        query_from(n, r, stack, whole).contains(x),
    decreases n.size() + stack_size(stack),
{
    n.lemma_subtrees();
    n.lemma_view_parts();
    n.law_tree_shape();
    let out = query_from(n, r, stack, whole);
    let pre = n.node_elements();
    let after = query_after(n, r, stack, whole);
    assert(out == pre + after);
    if pre.contains(x) {
        let k = pre.index_of(x);
        assert(out[k] == x);
        return;
    }
    if n.view().contains(x) {
        n.lemma_in_subtree(x);
    }
    if n.is_split() {
        let qx = node_quadrant(n.region(), area(x));
        match node_quadrant(n.region(), r) {
            Some(q) => {
                let c = n.subtree(q);
                if n.view().contains(x) && qx != Some(q) {
                    law_quadrants_apart(n.region(), area(x), r, SCALE as int);
                }
                lemma_stack_size_push(stack, &c);
                lemma_query_finds_all(c, r, stack, whole, x);
                assert(after == query_from(c, r, stack, whole));
            },
            None => {
                let s1 = stack.push(&n.subtree(Quadrant::TR));
                let s2 = s1.push(&n.subtree(Quadrant::BR));
                let s3 = s2.push(&n.subtree(Quadrant::BL));
                lemma_stack_size_push(stack, &n.subtree(Quadrant::TR));
                lemma_stack_size_push(s1, &n.subtree(Quadrant::BR));
                lemma_stack_size_push(s2, &n.subtree(Quadrant::BL));
                assert(stack_wf(s3)) by {
                    assert forall|i: int| 0 <= i < s3.len() implies (#[trigger] s3[i]).wf() by {
                        if i < stack.len() {
                            assert(s3[i] == stack[i]);
                        }
                    }
                }
                if !n.subtree(Quadrant::TL).view().contains(x) {
                    if n.view().contains(x) {
                        let qq = qx->0;
                        let k: int = if qq == Quadrant::TR {
                            stack.len() as int
                        } else if qq == Quadrant::BR {
                            stack.len() + 1int
                        } else {
                            stack.len() + 2int
                        };
                        assert(s3[k].view().contains(x));
                    } else {
                        let i = choose|i: int|
                            0 <= i < stack.len() && (#[trigger] stack[i]).view().contains(x);
                        assert(s3[i] == stack[i]);
                    }
                }
                lemma_query_finds_all(n.subtree(Quadrant::TL), r, s3, whole, x);
                assert(after == query_from(n.subtree(Quadrant::TL), r, s3, whole));
            },
        }
    } else {
        let last = *stack.last();
        let rest = stack.drop_last();
        let i = choose|i: int| 0 <= i < stack.len() && (#[trigger] stack[i]).view().contains(x);
        assert(stack[stack.len() - 1] == last);
        assert(rest.push(stack.last()) == stack);
        lemma_stack_size_push(rest, stack.last());
        if i < stack.len() - 1 {
            assert(rest[i] == stack[i]);
        }
        assert(stack_wf(rest)) by {
            assert forall|j: int| 0 <= j < rest.len() implies (#[trigger] rest[j]).wf() by {
                assert(rest[j] == stack[j]);
            }
        }
        lemma_query_finds_all(last, r, rest, whole, x);
        assert(after == query_from(last, r, rest, whole));
    }
    let m = after.index_of(x);
    assert(out[pre.len() + m] == x);
}

/// A query for an element inside the tree's area, or of a tree that has not
/// split, yields every element of the tree that overlaps it.
pub proof fn law_query_finds_overlapping<'a, T>(t: QuadTree<'a, T>, r: Bounds, x: Entry<'a, T>)
    requires
        t.wf(),
        node_contains(t.region(), r) || !t.is_split(),
        t.view().contains(x),
        overlaps(area(x), r),
    ensures
        t.query_result(r).contains(x),
{
    t.lemma_subtrees();
    t.lemma_view_parts();
    if node_contains(t.region(), r) {
        lemma_query_finds_all(t, r, Seq::empty(), t.region(), x);
    } else {
        assert(t.query_result(r) =~= t.view());
    }
}

/// A query that walks down only into the quadrants `r` fits in yields, from
/// `t` on, an element of `t` whose area fits those quadrants too.
proof fn lemma_query_finds_stored<'a, T>(t: QuadTree<'a, T>, x: Entry<'a, T>, whole: Bounds)
    requires
        t.wf(),
        t.view().contains(x),
    ensures
        query_from(t, area(x), Seq::empty(), whole).contains(x),
    decreases t.size(),
{
    t.lemma_subtrees();
    t.lemma_view_parts();
    let r = area(x);
    let out = query_from(t, r, Seq::empty(), whole);
    let pre = t.node_elements();
    assert(out == pre + query_after(t, r, Seq::empty(), whole));
    if pre.contains(x) {
        assert(out[pre.index_of(x)] == x);
    } else {
        t.lemma_in_subtree(x);
        t.law_tree_shape();
        let c = t.subtree(node_quadrant(t.region(), r)->0);
        assert(query_after(t, r, Seq::empty(), whole) == query_from(c, r, Seq::empty(), whole));
        lemma_query_finds_stored(c, x, whole);
        let m = query_from(c, r, Seq::empty(), whole).index_of(x);
        assert(out[pre.len() + m] == x);
    }
}

/// A query for an element of the tree, or for anything occupying the same
/// area, yields that element: the query walks down the quadrants the element
/// fits in, which is where insertion put it.
pub proof fn law_query_finds_stored<'a, T>(t: QuadTree<'a, T>, x: Entry<'a, T>)
    requires
        t.wf(),
        t.view().contains(x),
    ensures
        t.query_result(area(x)).contains(x),
{
    lemma_query_finds_stored(t, x, t.region());
}

/// A query for an element that fits in one quadrant of a split tree does
/// not yield an element stored in another quadrant.
pub proof fn law_query_skips_other_quadrants<'a, T>(
    t: QuadTree<'a, T>,
    r: Bounds,
    x: Entry<'a, T>,
)
    requires
        t.wf(),
        t.is_split(),
        node_quadrant(t.region(), r) is Some,
        node_quadrant(t.region(), area(x)) is Some,
        node_quadrant(t.region(), r) != node_quadrant(t.region(), area(x)),
    ensures
        !t.query_result(r).contains(x),
{
    t.lemma_subtrees();
    t.law_tree_shape();
    let q = node_quadrant(t.region(), r)->0;
    let c = t.subtree(q);
    let pre = t.node_elements();
    let tail = query_from(c, r, Seq::empty(), t.region());
    assert(t.query_result(r) == pre + tail);
    if pre.contains(x) {
        t.law_element_placement(x);
    }
    if tail.contains(x) {
        lemma_query_from_within(c, r, Seq::empty(), t.region());
        assert(tail.to_multiset().count(x) > 0);
        assert(c.view().to_multiset().count(x) > 0);
        let j = c.view().index_of(x);
        assert(c.view()[j] == x);
    }
    if t.query_result(r).contains(x) {
        let k = t.query_result(r).index_of(x);
        if k < pre.len() {
            assert(pre[k] == x);
        } else {
            assert(tail[k - pre.len()] == x);
        }
    }
}


/// An element inserted at area `b` is found by every later query for an
/// area that overlaps `b` and lies inside the tree (or of a tree that has
/// not split).
pub proof fn law_inserted_is_found<'a, T>(
    before: QuadTree<'a, T>,
    after: QuadTree<'a, T>,
    element: &'a T,
    b: Bounds,
    r: Bounds,
)
    requires
        inserted(before, after, element, b),
        overlaps(b, r),
        node_contains(after.region(), r) || !after.is_split(),
    ensures
        after.query_result(r).contains((element, b)),
{
    QuadTree::law_insert_adds_one(before, after, element, b);
    law_query_finds_overlapping(after, r, (element, b));
}

} // verus!
