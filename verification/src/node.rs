//! The guillotine partition of one bin: a binary tree whose leaves tile the
//! bin, each leaf either free or taken by one box.

use vstd::prelude::*;
use crate::geometry::{Dimension, Fit, Rectangle};

verus! {

/// A leaf of the partition as contracts see it: a region and, if a box lies
/// there, the number of that box.
pub struct Cell {
    pub bounds: Rectangle,
    pub id: Option<u32>,
}

impl Cell {
    /// The free cell with its corner at `(x, y)` and the given extent.
    pub open spec fn vacant(x: int, y: int, w: int, h: int) -> Cell {
        Cell {
            bounds: Rectangle {
                x: x as u32,
                y: y as u32,
                size: Dimension { w: w as u32, h: h as u32 },
                flipped: false,
            },
            id: None,
        }
    }

    /// The cell is free and the box can lie in it.
    pub open spec fn takes(self, dim: Dimension, flipping: bool) -> bool {
        self.id is None && self.bounds.size.admits(dim, flipping)
    }

    /// Where the box comes to lie in this cell: in its top-left corner, in
    /// the orientation that the fit test chooses.
    pub open spec fn placed_rect(self, dim: Dimension) -> Rectangle {
        let flip = self.bounds.size.fit_of(dim).turn();
        Rectangle { x: self.bounds.x, y: self.bounds.y, size: dim.turned(flip), flipped: flip }
    }

    /// The two parts into which the first cut divides this cell for a box
    /// that it has room to spare for: the strip in which the box will lie,
    /// and the rest. The cut runs along the side of the box that leaves the
    /// larger slack across it; it is vertical only if the slack in width is
    /// strictly larger than the slack in height.
    pub open spec fn cut(self, dim: Dimension) -> (Rectangle, Rectangle) {
        let b = self.bounds;
        let piece = dim.turned(b.size.fit_of(dim).turn());
        if b.size.w - piece.w > b.size.h - piece.h {
            (
                Rectangle { x: b.x, y: b.y, size: Dimension { w: piece.w, h: b.size.h }, flipped: false },
                Rectangle {
                    x: (b.x + piece.w) as u32,
                    y: b.y,
                    size: Dimension { w: (b.size.w - piece.w) as u32, h: b.size.h },
                    flipped: false,
                },
            )
        } else {
            (
                Rectangle { x: b.x, y: b.y, size: Dimension { w: b.size.w, h: piece.h }, flipped: false },
                Rectangle {
                    x: b.x,
                    y: (b.y + piece.h) as u32,
                    size: Dimension { w: b.size.w, h: (b.size.h - piece.h) as u32 },
                    flipped: false,
                },
            )
        }
    }

    /// The cells that replace this one once the box lies in it: the part that
    /// the box takes, then what is left of the strip that was cut off for it,
    /// then the rest of the cell. The first cut runs along the side of the box
    /// that leaves the larger slack across it; it is vertical only if the
    /// slack in width is strictly larger than the slack in height.
    pub open spec fn place(self, dim: Dimension, id: u32) -> Seq<Cell> {
        let b = self.bounds;
        let fit = b.size.fit_of(dim);
        let piece = dim.turned(fit.turn());
        let taken = Cell { bounds: self.placed_rect(dim), id: Some(id) };
        if fit is Exact {
            seq![taken]
        } else if b.size.w - piece.w > b.size.h - piece.h {
            let beside = Cell::vacant(b.x + piece.w, b.y as int, b.size.w - piece.w, b.size.h as int);
            if b.size.h == piece.h {
                seq![taken, beside]
            } else {
                seq![
                    taken,
                    Cell::vacant(b.x as int, b.y + piece.h, piece.w as int, b.size.h - piece.h),
                    beside,
                ]
            }
        } else {
            let below = Cell::vacant(b.x as int, b.y + piece.h, b.size.w as int, b.size.h - piece.h);
            if b.size.w == piece.w {
                seq![taken, below]
            } else {
                seq![
                    taken,
                    Cell::vacant(b.x + piece.w, b.y as int, b.size.w - piece.w, piece.h as int),
                    below,
                ]
            }
        }
    }
}

/// Index of the first cell that takes the box, or the number of cells if
/// none does.
pub open spec fn first_fit(cells: Seq<Cell>, dim: Dimension, flipping: bool) -> int
    decreases cells.len(),
{
    if cells.len() == 0 {
        0
    } else if cells[0].takes(dim, flipping) {
        0
    } else {
        1 + first_fit(cells.drop_first(), dim, flipping)
    }
}

/// Where the box is placed by first fit over `cells`, if anywhere.
pub open spec fn first_fit_rect(cells: Seq<Cell>, dim: Dimension, flipping: bool) -> Option<Rectangle> {
    let k = first_fit(cells, dim, flipping);
    if k < cells.len() {
        Some(cells[k].placed_rect(dim))
    } else {
        None
    }
}

/// The cells after the box was placed by first fit; unchanged if no cell
/// takes it.
pub open spec fn first_fit_cells(cells: Seq<Cell>, dim: Dimension, id: u32, flipping: bool) -> Seq<Cell> {
    let k = first_fit(cells, dim, flipping);
    if k < cells.len() {
        cells.take(k) + cells[k].place(dim, id) + cells.skip(k + 1)
    } else {
        cells
    }
}

/// `first_fit` returns a position in range, the cell there takes the box,
/// and no earlier cell does.
pub proof fn lemma_first_fit(cells: Seq<Cell>, dim: Dimension, flipping: bool)
    ensures
        0 <= first_fit(cells, dim, flipping) <= cells.len(),
        first_fit(cells, dim, flipping) < cells.len() ==> cells[first_fit(cells, dim, flipping)].takes(
            dim,
            flipping,
        ),
        forall|j: int| 0 <= j < first_fit(cells, dim, flipping) ==> !(#[trigger] cells[j]).takes(dim, flipping),
    decreases cells.len(),
{
    if cells.len() > 0 && !cells[0].takes(dim, flipping) {
        let rest = cells.drop_first();
        lemma_first_fit(rest, dim, flipping);
        assert forall|j: int| 0 <= j < first_fit(cells, dim, flipping) implies !(#[trigger] cells[j]).takes(
            dim,
            flipping,
        ) by {
            if j > 0 {
                assert(cells[j] == rest[j - 1]);
            }
        }
    }
}

/// First fit over a single cell places the box there if the cell takes it.
pub proof fn lemma_first_fit_one(cell: Cell, dim: Dimension, id: u32, flipping: bool)
    ensures
        first_fit_rect(seq![cell], dim, flipping) == if cell.takes(dim, flipping) {
            Some(cell.placed_rect(dim))
        } else {
            None
        },
        first_fit_cells(seq![cell], dim, id, flipping) == if cell.takes(dim, flipping) {
            cell.place(dim, id)
        } else {
            seq![cell]
        },
{
    let one = seq![cell];
    assert(one.drop_first() =~= Seq::<Cell>::empty());
    assert(first_fit(Seq::<Cell>::empty(), dim, flipping) == 0);
    assert(one.take(0) =~= Seq::<Cell>::empty());
    assert(one.skip(1) =~= Seq::<Cell>::empty());
    if cell.takes(dim, flipping) {
        assert(first_fit_cells(one, dim, id, flipping) =~= cell.place(dim, id));
    }
}

/// The strip that the first cut makes for a box is smaller than the cell,
/// takes the box in the same place and orientation as the cell does, and is
/// replaced by the same cells; strip and rest tile the cell.
pub proof fn lemma_cut(cell: Cell, dim: Dimension, id: u32, flipping: bool)
    requires
        cell.takes(dim, flipping),
        cell.bounds.representable(),
        !(cell.bounds.size.fit_of(dim) is Exact),
    ensures
        ({
            let strip = Cell { bounds: cell.cut(dim).0, id: None };
            let rest = Cell { bounds: cell.cut(dim).1, id: None };
            &&& strip.takes(dim, flipping)
            &&& strip.bounds.representable()
            &&& rest.bounds.representable()
            &&& strip.bounds.size.w + strip.bounds.size.h < cell.bounds.size.w + cell.bounds.size.h
            &&& strip.placed_rect(dim) == cell.placed_rect(dim)
            &&& strip.place(dim, id) + seq![rest] == cell.place(dim, id)
            &&& tiles(cell.bounds, strip.bounds, rest.bounds)
        }),
{
    let strip = Cell { bounds: cell.cut(dim).0, id: None };
    let rest = Cell { bounds: cell.cut(dim).1, id: None };
    assert(strip.place(dim, id) + seq![rest] =~= cell.place(dim, id));
}

/// First fit over two runs of cells looks through the first run, and through
/// the second only if the first has no room.
pub proof fn lemma_first_fit_concat(a: Seq<Cell>, b: Seq<Cell>, dim: Dimension, flipping: bool)
    ensures
        first_fit(a + b, dim, flipping) == if first_fit(a, dim, flipping) < a.len() {
            first_fit(a, dim, flipping)
        } else {
            a.len() + first_fit(b, dim, flipping)
        },
    decreases a.len(),
{
    lemma_first_fit(a, dim, flipping);
    if a.len() == 0 {
        assert(a + b =~= b);
    } else {
        assert((a + b)[0] == a[0]);
        assert((a + b).drop_first() =~= a.drop_first() + b);
        if !a[0].takes(dim, flipping) {
            lemma_first_fit_concat(a.drop_first(), b, dim, flipping);
        }
    }
}

/// Placing a box over two runs of cells places it in the first run if that
/// has room, else in the second, and leaves the other run as it was.
pub proof fn lemma_first_fit_cells_concat(a: Seq<Cell>, b: Seq<Cell>, dim: Dimension, id: u32, flipping: bool)
    ensures
        first_fit_rect(a + b, dim, flipping) == if first_fit_rect(a, dim, flipping) is Some {
            first_fit_rect(a, dim, flipping)
        } else {
            first_fit_rect(b, dim, flipping)
        },
        first_fit_cells(a + b, dim, id, flipping) == if first_fit_rect(a, dim, flipping) is Some {
            first_fit_cells(a, dim, id, flipping) + b
        } else {
            a + first_fit_cells(b, dim, id, flipping)
        },
{
    lemma_first_fit(a, dim, flipping);
    lemma_first_fit(b, dim, flipping);
    lemma_first_fit_concat(a, b, dim, flipping);
    let ka = first_fit(a, dim, flipping);
    let kb = first_fit(b, dim, flipping);
    let ab = a + b;
    if ka < a.len() {
        assert(ab[ka] == a[ka]);
        assert(ab.take(ka) =~= a.take(ka));
        assert(ab.skip(ka + 1) =~= a.skip(ka + 1) + b);
        assert(first_fit_cells(ab, dim, id, flipping) =~= first_fit_cells(a, dim, id, flipping) + b);
    } else if kb < b.len() {
        let k = a.len() + kb;
        assert(ab[k] == b[kb]);
        assert(ab.take(k) =~= a + b.take(kb));
        assert(ab.skip(k + 1) =~= b.skip(kb + 1));
        assert(first_fit_cells(ab, dim, id, flipping) =~= a + first_fit_cells(b, dim, id, flipping));
    }
}

/// The two children tile the parent: one straight cut, vertical or
/// horizontal, with the first child on the top-left side of it.
pub open spec fn tiles(parent: Rectangle, first: Rectangle, second: Rectangle) -> bool {
    &&& first.x == parent.x
    &&& first.y == parent.y
    &&& {
        ||| {
            &&& first.size.h == parent.size.h
            &&& first.size.w <= parent.size.w
            &&& second.x == parent.x + first.size.w
            &&& second.y == parent.y
            &&& second.size.w == parent.size.w - first.size.w
            &&& second.size.h == parent.size.h
        }
        ||| {
            &&& first.size.w == parent.size.w
            &&& first.size.h <= parent.size.h
            &&& second.x == parent.x
            &&& second.y == parent.y + first.size.h
            &&& second.size.w == parent.size.w
            &&& second.size.h == parent.size.h - first.size.h
        }
    }
}

/// A node of the partition tree. A leaf has no children and is free or taken;
/// an inner node has two children that tile it.
#[derive(PartialEq, Eq, Debug)]
pub struct Node {
    pub id: Option<u32>,
    pub bounds: Rectangle,
    pub child1: Option<Box<Node>>,
    pub child2: Option<Box<Node>>,
}

impl Clone for Node {
    fn clone(&self) -> (copy: Self)
        ensures
            copy == *self,
        decreases self,
    {
        Node {
            id: self.id,
            bounds: self.bounds,
            child1: match &self.child1 {
                Some(child) => Some(Box::new((&**child).clone())),
                None => None,
            },
            child2: match &self.child2 {
                Some(child) => Some(Box::new((&**child).clone())),
                None => None,
            },
        }
    }
}

impl Node {
    /// The free leaf that spans `bounds`.
    pub open spec fn leaf(bounds: Rectangle) -> Node {
        Node { id: None, bounds, child1: None, child2: None }
    }

    /// Number of cuts on the longest way down to a leaf.
    pub open spec fn height(self) -> nat
        decreases self,
    {
        let h1 = match self.child1 {
            Some(c) => c.height() + 1,
            None => 0,
        };
        let h2 = match self.child2 {
            Some(c) => c.height() + 1,
            None => 0,
        };
        if h1 >= h2 {
            h1
        } else {
            h2
        }
    }

    /// The tree is a partition: every node has two children or none, only
    /// leaves are taken, children tile their parent, and no region reaches
    /// past the largest coordinate.
    pub open spec fn wf(self) -> bool
        decreases self,
    {
        &&& self.bounds.representable()
        &&& match (self.child1, self.child2) {
            (None, None) => true,
            (Some(c1), Some(c2)) => {
                &&& self.id is None
                &&& c1.wf()
                &&& c2.wf()
                &&& tiles(self.bounds, c1.bounds, c2.bounds)
            },
            _ => false,
        }
    }

    /// The leaves from left to right, which is the order in which a box is
    /// offered to them.
    pub open spec fn cells(self) -> Seq<Cell>
        decreases self,
    {
        match (self.child1, self.child2) {
            (Some(c1), Some(c2)) => c1.cells() + c2.cells(),
            _ => seq![Cell { bounds: self.bounds, id: self.id }],
        }
    }

    /// The tree after the box was offered to it. Inside the tree the box goes
    /// to the first child whose leaves have room for it, else to the second.
    /// A free leaf that the box fits exactly becomes a taken leaf. A free leaf
    /// with room to spare is cut in two along the side of the box that leaves
    /// the larger slack across it, vertically only if the slack in width is
    /// strictly larger; the box then goes to the first of the two parts. A
    /// tree without room stays as it is.
    pub open spec fn planted(self, dim: Dimension, id: u32, flipping: bool) -> Node
        decreases self.height(), self.bounds.size.w + self.bounds.size.h,
    {
        match (self.child1, self.child2) {
            (Some(c1), Some(c2)) => {
                if first_fit_rect(c1.cells(), dim, flipping) is Some {
                    Node { child1: Some(Box::new(c1.planted(dim, id, flipping))), ..self }
                } else {
                    Node { child2: Some(Box::new(c2.planted(dim, id, flipping))), ..self }
                }
            },
            _ => {
                let b = self.bounds;
                let fit = b.size.fit_of(dim);
                let marked = Rectangle { flipped: fit.turn(), ..b };
                if self.child1 is Some || self.child2 is Some || self.id is Some || !fit.allows(flipping)
                    || !b.representable() {
                    self
                } else if fit is Exact {
                    Node { id: Some(id), bounds: marked, ..self }
                } else {
                    let parts = (Cell { bounds: b, id: None }).cut(dim);
                    Node {
                        bounds: marked,
                        child1: Some(Box::new(Node::leaf(parts.0).planted(dim, id, flipping))),
                        child2: Some(Box::new(Node::leaf(parts.1))),
                        ..self
                    }
                }
            },
        }
    }

    /// The free leaf of the given size with its corner at the origin.
    pub fn new(size: &Dimension) -> (node: Node)
        ensures
            node == Node::leaf(Rectangle::at_origin(*size)),
            node.wf(),
    {
        Node::from_rect(Rectangle { x: 0, y: 0, size: *size, flipped: false })
    }

    /// The free leaf between the given edges.
    pub fn from_bound_box(l: u32, t: u32, r: u32, b: u32) -> (node: Node)
        requires
            l <= r,
            t <= b,
        ensures
            node == Node::leaf(
                Rectangle { x: l, y: t, size: Dimension { w: (r - l) as u32, h: (b - t) as u32 }, flipped: false },
            ),
            node.wf(),
    {
        Node::from_rect(Rectangle { x: l, y: t, size: Dimension { w: r - l, h: b - t }, flipped: false })
    }

    /// The free leaf that spans `bounds`.
    pub fn from_rect(bounds: Rectangle) -> (node: Node)
        ensures
            node == Node::leaf(bounds),
            node.wf() <==> bounds.representable(),
    {
        Node { id: None, bounds, child1: None, child2: None }
    }

    /// Offers the box to the leaves from left to right and places it in the
    /// first free leaf that it fits, cutting that leaf as needed. Returns the
    /// region that the box now occupies, or `None`, with the tree unchanged,
    /// if no leaf takes it.
    #[verifier::rlimit(30)]
    pub fn insert(&mut self, rect: &Dimension, id: u32, flipping_allowed: bool) -> (placed: Option<Rectangle>)
        requires
            old(self).wf(),
        ensures
            final(self).wf(),
            final(self).bounds.x == old(self).bounds.x,
            final(self).bounds.y == old(self).bounds.y,
            final(self).bounds.size == old(self).bounds.size,
            old(self).child1 is Some ==> final(self).child1 is Some,
            placed is None ==> *final(self) == *old(self),
            *final(self) == old(self).planted(*rect, id, flipping_allowed),
            placed == first_fit_rect(old(self).cells(), *rect, flipping_allowed),
            final(self).cells() == first_fit_cells(old(self).cells(), *rect, id, flipping_allowed),
        decreases old(self).height(), old(self).bounds.size.w + old(self).bounds.size.h,
    {
        let ghost before = *self;
        match &mut self.child1 {
            Some(child1) => {
                assert(before.child2 is Some);
                let placed = child1.insert(rect, id, flipping_allowed);
                if placed.is_some() {
                    proof {
                        lemma_first_fit_cells_concat(
                            before.child1.unwrap().cells(),
                            before.child2.unwrap().cells(),
                            *rect,
                            id,
                            flipping_allowed,
                        );
                    }
                    return placed;
                }
            },
            None => {},
        }
        match &mut self.child2 {
            Some(child2) => {
                assert(before.child1 is Some);
                proof {
                    lemma_first_fit_cells_concat(
                        before.child1.unwrap().cells(),
                        before.child2.unwrap().cells(),
                        *rect,
                        id,
                        flipping_allowed,
                    );
                }
                return child2.insert(rect, id, flipping_allowed);
            },
            None => {},
        }
        let ghost cell = Cell { bounds: before.bounds, id: before.id };
        proof {
            assert(before.cells() =~= seq![cell]);
            lemma_first_fit_one(cell, *rect, id, flipping_allowed);
        }
        if self.id.is_some() {
            return None;
        }
        let fit = self.bounds.size.fits(rect);
        match fit {
            Fit::No => {
                return None;
            },
            Fit::Yes(flip) => {
                if flip && !flipping_allowed {
                    return None;
                } else {
                    self.bounds.flipped = flip;
                }
            },
            Fit::Exact(flip) => {
                if flip && !flipping_allowed {
                    return None;
                }
                self.id = Some(id);
                self.bounds.flipped = flip;
                proof {
                    assert(self.cells() =~= cell.place(*rect, id));
                }
                return Some(self.bounds);
            },
        }
        let (w, h) = if self.bounds.flipped {
            (rect.h, rect.w)
        } else {
            (rect.w, rect.h)
        };
        let b = self.bounds;
        if self.bounds.size.w - w > self.bounds.size.h - h {
            self.child1 = Some(Box::new(Node::from_bound_box(b.l(), b.t(), b.l() + w, b.b())));
            self.child2 = Some(Box::new(Node::from_bound_box(b.l() + w, b.t(), b.r(), b.b())));
        } else {
            self.child1 = Some(Box::new(Node::from_bound_box(b.l(), b.t(), b.r(), b.t() + h)));
            self.child2 = Some(Box::new(Node::from_bound_box(b.l(), b.t() + h, b.r(), b.b())));
        }
        let ghost split = *self;
        let ghost strip = Cell { bounds: cell.cut(*rect).0, id: None };
        let ghost rest = Cell { bounds: cell.cut(*rect).1, id: None };
        proof {
            lemma_cut(cell, *rect, id, flipping_allowed);
            assert(split.child1.unwrap().bounds == strip.bounds);
            assert(split.child2.unwrap().bounds == rest.bounds);
            assert(split.child1.unwrap().cells() =~= seq![strip]);
            assert(split.child2.unwrap().cells() =~= seq![rest]);
            lemma_first_fit_one(strip, *rect, id, flipping_allowed);
        }
        let placed = match &mut self.child1 {
            Some(child1) => child1.insert(rect, id, flipping_allowed),
            None => None,
        };
        proof {
            assert(self.child2 == split.child2);
            assert(self.bounds == split.bounds);
            assert(self.id == split.id);
            assert(split.child2.unwrap().wf());
            assert(tiles(self.bounds, self.child1.unwrap().bounds, self.child2.unwrap().bounds));
            assert(self.child1.unwrap().wf());
        }
        placed
    }
}

/// The leaves of a partition lie inside its root, and no two of them
/// overlap.
pub proof fn lemma_leaves_tile(node: Node)
    requires
        node.wf(),
    ensures
        node.cells().len() >= 1,
        forall|k: int| 0 <= k < node.cells().len() ==> (#[trigger] node.cells()[k]).bounds.inside(node.bounds),
        forall|k: int, l: int|
            0 <= k < l < node.cells().len() ==> !(#[trigger] node.cells()[k]).bounds.overlaps(
                (#[trigger] node.cells()[l]).bounds,
            ),
    decreases node,
{
    match (node.child1, node.child2) {
        (Some(c1), Some(c2)) => {
            lemma_leaves_tile(*c1);
            lemma_leaves_tile(*c2);
            let a = c1.cells();
            let b = c2.cells();
            let all = node.cells();
            assert(all == a + b);
            assert forall|k: int| 0 <= k < all.len() implies (#[trigger] all[k]).bounds.inside(node.bounds) by {
                if k < a.len() {
                    assert(all[k] == a[k]);
                    assert(a[k].bounds.inside(c1.bounds));
                } else {
                    assert(all[k] == b[k - a.len()]);
                    assert(b[k - a.len()].bounds.inside(c2.bounds));
                }
            }
            assert forall|k: int, l: int| 0 <= k < l < all.len() implies !(#[trigger] all[k]).bounds.overlaps(
                (#[trigger] all[l]).bounds,
            ) by {
                if l < a.len() {
                    assert(all[k] == a[k] && all[l] == a[l]);
                } else if k >= a.len() {
                    assert(all[k] == b[k - a.len()] && all[l] == b[l - a.len()]);
                } else {
                    assert(all[k] == a[k] && all[l] == b[l - a.len()]);
                    assert(a[k].bounds.inside(c1.bounds));
                    assert(b[l - a.len()].bounds.inside(c2.bounds));
                }
            }
        },
        _ => {},
    }
}

} // verus!
