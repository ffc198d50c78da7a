# quadtree

A quadtree for inserting and querying elements located in 2D space, written
in Verus: every operation carries a contract, and Verus proves the code
against it.

Elements implement `Bounded`, whose `bounds` method gives the area an element
occupies. The tree keeps references to its elements, each with the area it
occupied when it was inserted. A node holds up to four elements; one more
makes it split into four quadrants (top left, top right, bottom right, bottom
left), and every element that fits entirely inside one quadrant moves down
into that quadrant's subtree. Nodes ten levels deep never split.

Coordinates are integers (`i64`). The tree keeps the areas of its nodes in
units of 1/1024 (`SCALE`), so that halving an area down to the depth limit is
exact: a 15-wide area splits into halves 7.5 wide, as in real arithmetic.
The tree's own area must therefore stay representable in `i64` once
multiplied by 1024. An
element fits a quadrant when it lies inside it, left and top edges included,
right and bottom edges and the dividing lines excluded. A query for an
element that fits no quadrant of a split node goes on into all four, unless
the element lies outside the whole tree.

## Layout

- `src/bounds.rs`: areas, the `Bounded` trait, and the geometry that decides
  in which quadrant an area fits.
- `src/quadtree/mod.rs`: the tree, its invariant, `new`, `insert`, `len`,
  `clear`, and the laws about where elements lie.
- `src/quadtree/items.rs`: `iter` and the iterator over all elements, in
  pre-order.
- `src/quadtree/query.rs`: `query` and the iterator over the elements near a
  given one, with the laws about what a query finds.
- `src/quadtree/show.rs`: a text picture of the tree.
- `tests/`: the tests.
- `app/main.rs`: a demo that draws, with SFML, the squares near the mouse
  pointer.

The iterators have an inherent `next` method; loop with `while let`.
