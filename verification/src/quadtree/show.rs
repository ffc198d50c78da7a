//! A text picture of a quadtree: one line per node, in pre-order, indented
//! by the node's depth.
use vstd::prelude::*;

use super::{Entry, QuadTree};
use crate::bounds::Quadrant;

verus! {

/// For each node of `t` in pre-order (the node itself, then its top left,
/// top right, bottom right and bottom left subtrees), its depth and the
/// number of elements it holds itself.
pub open spec fn outline<'a, T>(t: QuadTree<'a, T>) -> Seq<(nat, nat)>
    decreases t.size(),
{
    proof {
        t.lemma_subtrees();
    }
    seq![(t.level(), t.node_elements().len())] + if t.is_split() {
        outline(t.subtree(Quadrant::TL)) + outline(t.subtree(Quadrant::TR)) + outline(
            t.subtree(Quadrant::BR),
        ) + outline(t.subtree(Quadrant::BL))
    } else {
        Seq::empty()
    }
}

/// For each node of `t` in pre-order, the elements it holds itself, in the
/// order it holds them.
pub open spec fn node_lists<'a, T>(t: QuadTree<'a, T>) -> Seq<Seq<&'a T>>
    decreases t.size(),
{
    proof {
        t.lemma_subtrees();
    }
    seq![t.node_elements().map_values(|e: Entry<'a, T>| e.0)] + if t.is_split() {
        node_lists(t.subtree(Quadrant::TL)) + node_lists(t.subtree(Quadrant::TR)) + node_lists(
            t.subtree(Quadrant::BR),
        ) + node_lists(t.subtree(Quadrant::BL))
    } else {
        Seq::empty()
    }
}

/// `text` is what `debug_text` gives for a vector holding `elements`, in
/// that order.
pub closed spec fn debug_list<'a, T: std::fmt::Debug>(elements: Seq<&'a T>, text: Seq<char>) -> bool {
    exists|v: Vec<&'a T>, st: String|
        v@ == elements && st@ == text && call_ensures(debug_text::<T>, (&v,), st)
}

/// Each text is the `Debug` list of its node's own elements, in order.
pub open spec fn lists_each<'a, T: std::fmt::Debug>(
    elements: Seq<Seq<&'a T>>,
    texts: Seq<Seq<char>>,
) -> bool {
    &&& elements.len() == texts.len()
    &&& forall|i: int| 0 <= i < texts.len() ==> debug_list(elements[i], #[trigger] texts[i])
}

/// Four spaces for each level of depth.
pub open spec fn indent(depth: nat) -> Seq<char> {
    Seq::new(4 * depth, |i: int| ' ')
}

/// The lines `indent(lines[i].0) + texts[i]`, joined by newlines.
pub open spec fn render(lines: Seq<(nat, nat)>, texts: Seq<Seq<char>>) -> Seq<char>
    decreases lines.len(),
{
    if lines.len() == 0 {
        Seq::empty()
    } else if lines.len() == 1 {
        indent(lines[0].0) + texts[0]
    } else {
        indent(lines[0].0) + texts[0] + seq!['\n'] + render(lines.drop_first(), texts.drop_first())
    }
}

/// `t` is how std's `Debug` writes a list of `n` items: between `[` and
/// `]`, and just `[]` when there are none.
pub open spec fn list_text(t: Seq<char>, n: nat) -> bool {
    &&& t.len() >= 2
    &&& t[0] == '['
    &&& t.last() == ']'
    &&& n == 0 ==> t == seq!['[', ']']
}

/// Each text is the list text of its line's elements.
pub open spec fn listed(lines: Seq<(nat, nat)>, texts: Seq<Seq<char>>) -> bool {
    &&& lines.len() == texts.len()
    &&& forall|i: int| 0 <= i < lines.len() ==> list_text(#[trigger] texts[i], lines[i].1)
}

/// Rendering two runs of lines one after the other puts a newline between
/// them.
proof fn lemma_render_concat(
    d1: Seq<(nat, nat)>,
    t1: Seq<Seq<char>>,
    d2: Seq<(nat, nat)>,
    t2: Seq<Seq<char>>,
)
    requires
        d1.len() == t1.len() > 0,
        d2.len() == t2.len() > 0,
    ensures
        render(d1 + d2, t1 + t2) == render(d1, t1) + seq!['\n'] + render(d2, t2),
    decreases d1.len(),
{
    if d1.len() == 1 {
        assert((d1 + d2).drop_first() =~= d2);
        assert((t1 + t2).drop_first() =~= t2);
    } else {
        lemma_render_concat(d1.drop_first(), t1.drop_first(), d2, t2);
        assert((d1 + d2).drop_first() =~= d1.drop_first() + d2);
        assert((t1 + t2).drop_first() =~= t1.drop_first() + t2);
    }
}

/// Formats the elements with std's `Debug` for a `Vec`: `[`, each element
/// written with the element type's own `Debug`, separated by `, `, and `]`.
/// What each element's text is, is not said.
#[verifier::external_body]
fn debug_text<T: std::fmt::Debug>(elements: &Vec<&T>) -> (s: String)
    ensures
        list_text(s@, elements@.len()),
{
    format!("{:?}", elements)
}

impl<'a, T> QuadTree<'a, T> {
    /// A picture of the tree: for each node in pre-order a line of four
    /// spaces per level of depth followed by the node's own elements as
    /// std's `Debug` lists them; the lines are joined by newlines.
    pub fn to_string(&self) -> (s: String)
        where
            T: std::fmt::Debug,
        ensures
            exists|texts: Seq<Seq<char>>|
                {
                    &&& listed(outline(*self), texts)
                    &&& lists_each(node_lists(*self), texts)
                    &&& s@ == render(outline(*self), texts)
                },
        decreases self.size(), 0nat,
    {
        proof {
            self.lemma_subtrees();
            reveal_strlit("    ");
        }
        let mut s = String::new();
        let mut i: usize = 0;
        while i < self.depth
            invariant
                i <= self.depth,
                s@ == indent(i as nat),
            decreases self.depth - i,
        {
            proof {
                reveal_strlit("    ");
            }
            s.append("    ");
            i += 1;
            assert(s@ =~= indent(i as nat));
        }
        let mut elements: Vec<&'a T> = Vec::new();
        let mut j: usize = 0;
        while j < self.elements.len()
            invariant
                j <= self.elements.len(),
                elements@ == self.elements@.take(j as int).map_values(|e: Entry<'a, T>| e.0),
            decreases self.elements.len() - j,
        {
            elements.push(self.elements[j].0);
            proof {
                assert(self.elements@.take(j + 1) == self.elements@.take(j as int).push(
                    self.elements@[j as int],
                ));
            }
            j += 1;
        }
        proof {
            assert(self.elements@.take(j as int) == self.elements@);
        }
        let text = debug_text(&elements);
        s.append(text.as_str());
        let ghost lines: Seq<(nat, nat)> = seq![(self.level(), self.node_elements().len())];
        let ghost texts: Seq<Seq<char>> = seq![text@];
        let ghost lists: Seq<Seq<&'a T>> = seq![
            self.node_elements().map_values(|e: Entry<'a, T>| e.0),
        ];
        proof {
            assert(s@ == render(lines, texts));
            assert(listed(lines, texts));
            assert(debug_list(lists[0], texts[0]));
            assert(lists_each(lists, texts));
        }
        match &self.children {
            Some(c) => {
                assert(self.subtree(Quadrant::TL) == c.tl);
                assert(self.subtree(Quadrant::TR) == c.tr);
                assert(self.subtree(Quadrant::BR) == c.br);
                assert(self.subtree(Quadrant::BL) == c.bl);
                let Ghost(t1) = append_subtree(
                    &mut s,
                    &c.tl,
                    Ghost(lines),
                    Ghost(lists),
                    Ghost(texts),
                );
                let ghost l1 = lines + outline(c.tl);
                let ghost n1 = lists + node_lists(c.tl);
                let Ghost(t2) = append_subtree(&mut s, &c.tr, Ghost(l1), Ghost(n1), Ghost(t1));
                let ghost l2 = l1 + outline(c.tr);
                let ghost n2 = n1 + node_lists(c.tr);
                let Ghost(t3) = append_subtree(&mut s, &c.br, Ghost(l2), Ghost(n2), Ghost(t2));
                let ghost l3 = l2 + outline(c.br);
                let ghost n3 = n2 + node_lists(c.br);
                let Ghost(t4) = append_subtree(&mut s, &c.bl, Ghost(l3), Ghost(n3), Ghost(t3));
                proof {
                    assert(l3 + outline(c.bl) =~= outline(*self));
                    assert(n3 + node_lists(c.bl) =~= node_lists(*self));
                }
            },
            None => {
                assert(lines =~= outline(*self));
                assert(lists =~= node_lists(*self));
            },
        }
        s
    }
}

/// Appends a newline and the picture of `sub` to `s`, the picture of
/// `lines` with `texts`; gives the texts of all the lines.
fn append_subtree<'a, T>(
    s: &mut String,
    sub: &QuadTree<'a, T>,
    Ghost(lines): Ghost<Seq<(nat, nat)>>,
    Ghost(lists): Ghost<Seq<Seq<&'a T>>>,
    Ghost(texts): Ghost<Seq<Seq<char>>>,
) -> (all: Ghost<Seq<Seq<char>>>)
    where
        T: std::fmt::Debug,
    requires
        lines.len() > 0,
        listed(lines, texts),
        lists_each(lists, texts),
        old(s)@ == render(lines, texts),
    ensures
        listed(lines + outline(*sub), all@),
        lists_each(lists + node_lists(*sub), all@),
        final(s)@ == render(lines + outline(*sub), all@),
    decreases sub.size(), 1nat,
{
    let t = sub.to_string();
    let ghost ts = choose|ts: Seq<Seq<char>>|
        {
            &&& listed(outline(*sub), ts)
            &&& lists_each(node_lists(*sub), ts)
            &&& t@ == render(outline(*sub), ts)
        };
    proof {
        reveal_strlit("\n");
        sub.lemma_subtrees();
        lemma_render_concat(lines, texts, outline(*sub), ts);
    }
    s.append("\n");
    s.append(t.as_str());
    proof {
        let l = lines + outline(*sub);
        let a = texts + ts;
        assert forall|i: int| 0 <= i < l.len() implies list_text(#[trigger] a[i], l[i].1) by {
            if i < lines.len() {
                assert(a[i] == texts[i]);
                assert(l[i] == lines[i]);
            } else {
                assert(a[i] == ts[i - lines.len()]);
                assert(l[i] == outline(*sub)[i - lines.len()]);
            }
        }
        let n = lists + node_lists(*sub);
        assert forall|i: int| 0 <= i < a.len() implies debug_list(n[i], #[trigger] a[i]) by {
            if i < lists.len() {
                assert(a[i] == texts[i]);
                assert(n[i] == lists[i]);
            } else {
                assert(a[i] == ts[i - lists.len()]);
                assert(n[i] == node_lists(*sub)[i - lists.len()]);
            }
        }
    }
    Ghost(texts + ts)
}

} // verus!
