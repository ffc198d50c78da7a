//! Iteration over every element of a quadtree, node by node in pre-order.
use vstd::prelude::*;

use super::{Entry, QuadTree};
use crate::bounds::Quadrant;

verus! {

/// An iterator over all elements in the quadtree.
///
/// It remembers the path of quadrants from the root to the node it is in,
/// and the index of the next element of that node.
pub struct Items<'a, T> {
    root: &'a QuadTree<'a, T>,
    quadrants: Vec<Quadrant>,
    element_index: usize,
}

impl<'a, T> QuadTree<'a, T> {
    /// Returns an iterator over all elements in the quadtree.
    pub fn iter(&'a self) -> (it: Items<'a, T>)
        ensures
            it.inv(),
            it.tree() == *self,
            it.rest() == self.view(),
    {
        Items::new(self)
    }
}

/// The node reached from `t` by following `path`, if every node on the way
/// has been split.
pub closed spec fn node_at<'a, T>(t: QuadTree<'a, T>, path: Seq<Quadrant>) -> Option<
    QuadTree<'a, T>,
>
    decreases path.len(),
{
    if path.len() == 0 {
        Some(t)
    } else if t.is_split() {
        node_at(t.subtree(path[0]), path.drop_first())
    } else {
        None
    }
}

/// The quadrant that follows `q` in iteration order.
pub open spec fn next_quadrant(q: Quadrant) -> Quadrant {
    match q {
        Quadrant::TL => Quadrant::TR,
        Quadrant::TR => Quadrant::BR,
        _ => Quadrant::BL,
    }
}

/// The elements of the subtrees of `t` that come after the subtree of `q`.
spec fn later<'a, T>(t: QuadTree<'a, T>, q: Quadrant) -> Seq<Entry<'a, T>> {
    match q {
        Quadrant::TL => t.subtree(Quadrant::TR).view() + t.subtree(Quadrant::BR).view() + t.subtree(
            Quadrant::BL,
        ).view(),
        Quadrant::TR => t.subtree(Quadrant::BR).view() + t.subtree(Quadrant::BL).view(),
        Quadrant::BR => t.subtree(Quadrant::BL).view(),
        Quadrant::BL => Seq::empty(),
    }
}

/// The number of nodes in the subtrees of `t` that come after that of `q`.
spec fn later_count<'a, T>(t: QuadTree<'a, T>, q: Quadrant) -> nat {
    match q {
        Quadrant::TL => t.subtree(Quadrant::TR).size() + t.subtree(Quadrant::BR).size() + t.subtree(
            Quadrant::BL,
        ).size(),
        Quadrant::TR => t.subtree(Quadrant::BR).size() + t.subtree(Quadrant::BL).size(),
        Quadrant::BR => t.subtree(Quadrant::BL).size(),
        Quadrant::BL => 0,
    }
}

/// The elements that come, in iteration order, after the whole subtree at
/// the end of `path`.
spec fn after<'a, T>(t: QuadTree<'a, T>, path: Seq<Quadrant>) -> Seq<Entry<'a, T>>
    decreases path.len(),
{
    if path.len() == 0 {
        Seq::empty()
    } else {
        after(t.subtree(path[0]), path.drop_first()) + later(t, path[0])
    }
}

/// The number of nodes that come after the whole subtree at the end of `path`.
spec fn after_count<'a, T>(t: QuadTree<'a, T>, path: Seq<Quadrant>) -> nat
    decreases path.len(),
{
    if path.len() == 0 {
        0
    } else {
        after_count(t.subtree(path[0]), path.drop_first()) + later_count(t, path[0])
    }
}

/// Following one more quadrant from a split node reaches its subtree.
proof fn lemma_node_at_push<'a, T>(t: QuadTree<'a, T>, path: Seq<Quadrant>, q: Quadrant)
    ensures
        node_at(t, path.push(q)) == (match node_at(t, path) {
            Some(n) => if n.is_split() {
                Some(n.subtree(q))
            } else {
                None
            },
            None => None,
        }),
    decreases path.len(),
{
    if path.len() == 0 {
        let rest = path.push(q).drop_first();
        assert(rest =~= Seq::<Quadrant>::empty());
        if t.is_split() {
            assert(node_at(t.subtree(q), rest) == Some(t.subtree(q)));
        }
    } else {
        assert(path.push(q).drop_first() =~= path.drop_first().push(q));
        if t.is_split() {
            lemma_node_at_push(t.subtree(path[0]), path.drop_first(), q);
        }
    }
}

/// What comes after the subtree of quadrant `q` of the node at `path`.
proof fn lemma_after_push<'a, T>(t: QuadTree<'a, T>, path: Seq<Quadrant>, q: Quadrant)
    requires
        node_at(t, path) is Some,
    ensures
        after(t, path.push(q)) == later(node_at(t, path)->0, q) + after(t, path),
        after_count(t, path.push(q)) == later_count(node_at(t, path)->0, q) + after_count(t, path),
    decreases path.len(),
{
    if path.len() == 0 {
        let rest = path.push(q).drop_first();
        assert(rest =~= Seq::<Quadrant>::empty());
        assert(after(t.subtree(q), rest) =~= Seq::<Entry<'a, T>>::empty());
        assert(after_count(t.subtree(q), rest) == 0);
        assert(after(t, path.push(q)) =~= later(t, q));
    } else {
        assert(path.push(q).drop_first() =~= path.drop_first().push(q));
        lemma_after_push(t.subtree(path[0]), path.drop_first(), q);
        assert(after(t, path.push(q)) =~= later(node_at(t, path)->0, q) + after(t, path));
    }
}

impl<'a, T> Items<'a, T> {
    /// The path of the iterator leads to a node of the tree.
    pub closed spec fn inv(&self) -> bool {
        node_at(*self.root, self.quadrants@) is Some
    }

    /// The tree being iterated over.
    pub closed spec fn tree(&self) -> QuadTree<'a, T> {
        *self.root
    }

    /// The node the iterator is in.
    spec fn current(&self) -> QuadTree<'a, T> {
        node_at(*self.root, self.quadrants@)->0
    }

    /// The elements of the current node not yet yielded.
    spec fn current_rest(&self) -> Seq<Entry<'a, T>> {
        let n = self.current().node_elements();
        if self.element_index < n.len() {
            n.subrange(self.element_index as int, n.len() as int)
        } else {
            Seq::empty()
        }
    }

    /// The elements that the following calls of `next` yield, in order,
    /// before the first `None`.
    pub closed spec fn rest(&self) -> Seq<Entry<'a, T>> {
        self.current_rest() + self.current().children_view() + after(*self.root, self.quadrants@)
    }

    /// Whether the search for a next element leaves the current node: it
    /// does when the node has been split, or when some node on the path still
    /// has a quadrant after the one the path takes.
    pub closed spec fn leaves_node(&self) -> bool {
        self.current().is_split() || exists|i: int|
            0 <= i < self.quadrants@.len() && self.quadrants@[i] != Quadrant::BL
    }

    /// The number of nodes the iterator has not entered yet.
    spec fn nodes_left(&self) -> nat {
        (self.current().size() - 1) as nat + after_count(*self.root, self.quadrants@)
    }

    /// An iterator positioned at the first element of `root`.
    pub(crate) fn new(root: &'a QuadTree<'a, T>) -> (it: Items<'a, T>)
        ensures
            it.inv(),
            it.tree() == *root,
            it.rest() == root.view(),
    {
        let it = Items { root, quadrants: Vec::new(), element_index: 0 };
        proof {
            assert(it.quadrants@ =~= Seq::<Quadrant>::empty());
            root.lemma_view_parts();
            assert(it.current_rest() =~= root.node_elements());
            assert(it.rest() =~= root.view());
        }
        it
    }

    /// The quadrants on the path from the root to the current node.
    pub closed spec fn path(&self) -> Seq<Quadrant> {
        self.quadrants@
    }

    /// The index of the next element of the current node.
    pub closed spec fn index(&self) -> nat {
        self.element_index as nat
    }

    /// Returns the next element, in pre-order: the elements of a node, then
    /// those of its top left, top right, bottom right and bottom left subtrees.
    ///
    /// Once every element has been yielded it returns `None`, and the iterator
    /// goes back to the root, keeping its element index only where it never
    /// left the node it was in.
    pub fn next(&mut self) -> (r: Option<&'a T>)
        requires
            old(self).inv(),
        ensures
            final(self).inv(),
            final(self).tree() == old(self).tree(),
            r is Some <==> old(self).rest().len() > 0,
            r is Some ==> r == Some(old(self).rest()[0].0)
                && final(self).rest() == old(self).rest().drop_first(),
            r is None ==> final(self).path() == Seq::<Quadrant>::empty() && final(self).index() == (
            if old(self).leaves_node() {
                0
            } else {
                old(self).index()
            }),
    {
        let ghost mut moved = false;
        loop
            invariant
                self.root == old(self).root,
                node_at(*self.root, self.quadrants@) is Some,
                self.rest() == old(self).rest(),
                moved ==> self.element_index == 0 && old(self).leaves_node(),
                !moved ==> self.quadrants@ == old(self).quadrants@
                    && self.element_index == old(self).element_index,
            decreases self.nodes_left(),
        {
            let node = self.current_node();
            let ghost n = *node;
            proof {
                n.lemma_view_parts();
            }
            if self.element_index < node.elements.len() {
                let element = node.elements[self.element_index];
                proof {
                    let e = n.node_elements();
                    let k = self.element_index as int;
                    assert(e.subrange(k, e.len() as int) =~= seq![element] + e.subrange(
                        k + 1,
                        e.len() as int,
                    ));
                }
                self.element_index += 1;
                proof {
                    let e = n.node_elements();
                    let k = self.element_index as int;
                    if k == e.len() {
                        assert(e.subrange(k, e.len() as int) =~= Seq::<Entry<'a, T>>::empty());
                    }
                    assert(self.rest() =~= old(self).rest().drop_first());
                }
                return Some(element.0);
            }
            if node.children.is_some() {
                self.descend();
            } else if !self.climb() {
                return None;
            }
            proof {
                moved = true;
            }
        }
    }

    /// Moves from the current node, which has been split and whose elements
    /// have all been yielded, to its top left subtree.
    fn descend(&mut self)
        requires
            old(self).inv(),
            old(self).current().is_split(),
            old(self).current_rest().len() == 0,
        ensures
            final(self).inv(),
            final(self).root == old(self).root,
            final(self).rest() == old(self).rest(),
            final(self).element_index == 0,
            final(self).nodes_left() < old(self).nodes_left(),
    {
        let ghost n = self.current();
        let ghost p0 = self.quadrants@;
        proof {
            lemma_after_push(*self.root, p0, Quadrant::TL);
            lemma_node_at_push(*self.root, p0, Quadrant::TL);
        }
        self.quadrants.push(Quadrant::TL);
        self.element_index = 0;
        proof {
            let c = n.subtree(Quadrant::TL);
            c.lemma_view_parts();
            assert(self.current() == c);
            assert(self.current_rest() =~= c.node_elements());
            assert(n.children_view() =~= c.view() + later(n, Quadrant::TL));
            assert(self.rest() =~= old(self).rest());
        }
    }

    /// From the current node, unsplit and with all its elements yielded,
    /// moves to the next subtree in pre-order: it leaves every bottom left
    /// quadrant on the path and enters the quadrant after the last other one.
    /// Where there is none it returns `false`, with an empty path.
    fn climb(&mut self) -> (moved: bool)
        requires
            old(self).inv(),
            !old(self).current().is_split(),
            old(self).current_rest().len() == 0,
        ensures
            final(self).inv(),
            final(self).root == old(self).root,
            final(self).element_index == if moved {
                0
            } else {
                old(self).element_index
            },
            moved <==> old(self).leaves_node(),
            moved ==> final(self).rest() == old(self).rest()
                && final(self).nodes_left() < old(self).nodes_left(),
            !moved ==> old(self).rest().len() == 0 && final(self).quadrants@ == Seq::<
                Quadrant,
            >::empty(),
    {
        let ghost p0 = self.quadrants@;
        let ghost n = self.current();
        let mut last = Quadrant::BL;
        let ghost r0 = after(*self.root, p0);
        proof {
            n.lemma_view_parts();
            assert(old(self).rest() =~= r0);
        }
        while last == Quadrant::BL
            invariant
                self.root == old(self).root,
                self.element_index == old(self).element_index,
                node_at(*self.root, self.quadrants@) is Some,
                p0 == old(self).quadrants@,
                old(self).rest() == r0,
                n == node_at(*self.root, p0)->0,
                !n.is_split(),
                self.quadrants@.len() <= p0.len(),
                self.quadrants@ == p0.take(self.quadrants@.len() as int),
                last == Quadrant::BL ==> forall|j: int|
                    self.quadrants@.len() <= j < p0.len() ==> p0[j] == Quadrant::BL,
                last != Quadrant::BL ==> self.quadrants@.len() < p0.len() && last
                    == p0[self.quadrants@.len() as int],
                last != Quadrant::BL ==> node_at(*self.root, self.quadrants@)->0.is_split(),
                r0 == later(node_at(*self.root, self.quadrants@)->0, last) + after(
                    *self.root,
                    self.quadrants@,
                ),
                after_count(*self.root, p0) == later_count(
                    node_at(*self.root, self.quadrants@)->0,
                    last,
                ) + after_count(*self.root, self.quadrants@),
            decreases self.quadrants@.len(),
        {
            let ghost cur = self.quadrants@;
            proof {
                if cur.len() > 0 {
                    lemma_prefix_valid(*self.root, cur, cur.len() - 1);
                    assert(cur.take(cur.len() - 1) =~= cur.drop_last());
                    assert(cur.drop_last().push(cur.last()) =~= cur);
                    lemma_after_push(*self.root, cur.drop_last(), cur.last());
                    lemma_node_at_push(*self.root, cur.drop_last(), cur.last());
                    assert(p0.take(cur.len() - 1) =~= cur.drop_last());
                }
            }
            match self.quadrants.pop() {
                Some(q) => {
                    last = q;
                },
                None => {
                    proof {
                        assert(cur.len() == 0);
                        assert(self.quadrants@ =~= Seq::<Quadrant>::empty());
                        assert(r0 =~= Seq::<Entry<'a, T>>::empty());
                        assert(!old(self).leaves_node());
                        assert(old(self).rest().len() == 0);
                    }
                    return false;
                },
            }
        }
        let next = match last {
            Quadrant::TL => Quadrant::TR,
            Quadrant::TR => Quadrant::BR,
            _ => Quadrant::BL,
        };
        let ghost cur = self.quadrants@;
        proof {
            lemma_after_push(*self.root, cur, next);
            lemma_node_at_push(*self.root, cur, next);
            assert(p0[cur.len() as int] != Quadrant::BL);
            assert(old(self).leaves_node());
        }
        self.quadrants.push(next);
        self.element_index = 0;
        proof {
            let m = node_at(*self.root, cur)->0;
            let c = m.subtree(next);
            c.lemma_view_parts();
            assert(self.current() == c);
            assert(self.current_rest() =~= c.node_elements());
            assert(later(m, last) =~= c.view() + later(m, next));
            assert(self.rest() =~= old(self).rest());
        }
        true
    }

    /// The node at the end of the iterator's path.
    fn current_node(&self) -> (n: &'a QuadTree<'a, T>)
        requires
            self.inv(),
        ensures
            *n == self.current(),
    {
        let root: &'a QuadTree<'a, T> = self.root;
        let mut node: &'a QuadTree<'a, T> = root;
        let mut i: usize = 0;
        proof {
            assert(self.quadrants@.take(0) =~= Seq::<Quadrant>::empty());
        }
        while i < self.quadrants.len()
            invariant
                i <= self.quadrants@.len(),
                node_at(*root, self.quadrants@) is Some,
                node_at(*root, self.quadrants@.take(i as int)) == Some(*node),
                *root == *self.root,
            decreases self.quadrants@.len() - i,
        {
            let q = self.quadrants[i];
            proof {
                assert(self.quadrants@.take(i + 1) =~= self.quadrants@.take(i as int).push(q));
                lemma_node_at_push(*root, self.quadrants@.take(i as int), q);
                lemma_prefix_valid(*root, self.quadrants@, i + 1);
            }
            node = match &node.children {
                Some(c) => match q {
                    Quadrant::TL => &c.tl,
                    Quadrant::TR => &c.tr,
                    Quadrant::BR => &c.br,
                    Quadrant::BL => &c.bl,
                },
                None => vstd::pervasive::unreached(),
            };
            i += 1;
        }
        proof {
            assert(self.quadrants@.take(i as int) =~= self.quadrants@);
        }
        node
    }
}

/// Every prefix of a path that leads to a node leads to a node too.
proof fn lemma_prefix_valid<'a, T>(t: QuadTree<'a, T>, path: Seq<Quadrant>, k: int)
    requires
        node_at(t, path) is Some,
        0 <= k <= path.len(),
    ensures
        node_at(t, path.take(k)) is Some,
    decreases path.len() - k,
{
    if k < path.len() {
        lemma_prefix_valid(t, path, k + 1);
        assert(path.take(k + 1) =~= path.take(k).push(path[k]));
        lemma_node_at_push(t, path.take(k), path[k]);
    } else {
        assert(path.take(k) =~= path);
    }
}

} // verus!
