//! One atlas: a partition tree together with the list of boxes placed in it.

use vstd::prelude::*;
use crate::geometry::{Dimension, Placement, Rectangle};
use crate::node::{first_fit, first_fit_cells, first_fit_rect, lemma_first_fit, Cell, Node};

verus! {

/// The boxes that lie in the taken cells, in the order of the cells.
pub open spec fn taken(cells: Seq<Cell>) -> Seq<Placement>
    decreases cells.len(),
{
    if cells.len() == 0 {
        Seq::empty()
    } else {
        let before = taken(cells.drop_last());
        match cells.last().id {
            Some(id) => before.push(Placement { index: id, rect: cells.last().bounds }),
            None => before,
        }
    }
}

/// A single cell holds one box if it is taken, none if it is free.
pub proof fn lemma_taken_one(cell: Cell)
    ensures
        taken(seq![cell]) == match cell.id {
            Some(id) => seq![Placement { index: id, rect: cell.bounds }],
            None => Seq::<Placement>::empty(),
        },
{
    let one = seq![cell];
    assert(one.drop_last() =~= Seq::<Cell>::empty());
    assert(taken(Seq::<Cell>::empty()) =~= Seq::<Placement>::empty());
    assert(taken(one) =~= match cell.id {
        Some(id) => seq![Placement { index: id, rect: cell.bounds }],
        None => Seq::<Placement>::empty(),
    });
}

/// The boxes of two runs of cells are those of the first run, then those of
/// the second.
pub proof fn lemma_taken_concat(a: Seq<Cell>, b: Seq<Cell>)
    ensures
        taken(a + b) == taken(a) + taken(b),
    decreases b.len(),
{
    if b.len() == 0 {
        assert(a + b =~= a);
        assert(taken(a) + taken(b) =~= taken(a));
    } else {
        assert((a + b).drop_last() =~= a + b.drop_last());
        assert((a + b).last() == b.last());
        lemma_taken_concat(a, b.drop_last());
        assert(taken(a + b) =~= taken(a) + taken(b));
    }
}

/// What a bin is to its callers: its size, the boxes placed so far in the
/// order of their arrival, the leaves of its partition from left to right,
/// and the size of the box it turned away last.
pub struct BinModel {
    pub size: Dimension,
    pub placements: Seq<Placement>,
    pub cells: Seq<Cell>,
    pub last_rejected: Dimension,
}

impl BinModel {
    /// The empty bin of the given size.
    pub open spec fn fresh(size: Dimension) -> BinModel {
        BinModel {
            size,
            placements: Seq::empty(),
            cells: seq![Cell { bounds: Rectangle::at_origin(size), id: None }],
            last_rejected: size,
        }
    }

    /// A side of length zero counts as one.
    pub open spec fn clamp(size: Dimension) -> Dimension {
        Dimension { w: if size.w < 1 { 1u32 } else { size.w }, h: if size.h < 1 { 1u32 } else { size.h } }
    }

    /// Nothing reaches past the bin, no two placed boxes overlap, no two
    /// leaves overlap, no free leaf overlaps a placed box, and the placed
    /// boxes are those of the taken leaves, one for each.
    pub open spec fn wf(self) -> bool {
        &&& taken(self.cells).to_multiset() == self.placements.to_multiset()
        &&& forall|k: int| 0 <= k < self.cells.len() ==> (#[trigger] self.cells[k]).bounds.within(self.size)
        &&& forall|k: int, l: int|
            0 <= k < l < self.cells.len() ==> !(#[trigger] self.cells[k]).bounds.overlaps(
                (#[trigger] self.cells[l]).bounds,
            )
        &&& forall|i: int|
            0 <= i < self.placements.len() ==> (#[trigger] self.placements[i]).rect.within(self.size)
        &&& forall|i: int, j: int|
            0 <= i < j < self.placements.len() ==> !(#[trigger] self.placements[i]).rect.overlaps(
                (#[trigger] self.placements[j]).rect,
            )
        &&& forall|k: int, i: int|
            0 <= k < self.cells.len() && 0 <= i < self.placements.len() && self.cells[k].id is None ==> !(
            #[trigger] self.cells[k]).bounds.overlaps((#[trigger] self.placements[i]).rect)
    }

    /// The bin after the box was placed by first fit over its leaves, or
    /// `None` if no leaf takes it.
    pub open spec fn seat(self, dim: Dimension, id: u32, flipping: bool) -> Option<BinModel> {
        match first_fit_rect(self.cells, dim, flipping) {
            Some(rect) => Some(
                BinModel {
                    placements: self.placements.push(Placement { index: id, rect }),
                    cells: first_fit_cells(self.cells, dim, id, flipping),
                    ..self
                },
            ),
            None => None,
        }
    }

    /// The bin takes the box: the box can lie inside the size that was turned
    /// away last, and some leaf takes it.
    pub open spec fn accepts(self, dim: Dimension, flipping: bool) -> bool {
        self.last_rejected.admits(dim, flipping) && first_fit_rect(self.cells, dim, flipping) is Some
    }

    /// The bin after the box was offered to it. A box that cannot lie inside
    /// the size turned away last is turned away unseen; one that no leaf takes
    /// becomes the size turned away last.
    pub open spec fn insert(self, dim: Dimension, id: u32, flipping: bool) -> BinModel {
        if !self.last_rejected.admits(dim, flipping) {
            self
        } else {
            match self.seat(dim, id, flipping) {
                Some(seated) => seated,
                None => BinModel { last_rejected: dim, ..self },
            }
        }
    }

    /// The empty bin of the given size after the boxes were placed in it one
    /// after the other, each in its unrotated size and under its own number,
    /// or `None` if one of them found no leaf.
    pub open spec fn reseat(boxes: Seq<Placement>, size: Dimension, flipping: bool) -> Option<BinModel>
        decreases boxes.len(),
    {
        if boxes.len() == 0 {
            Some(BinModel::fresh(size))
        } else {
            match BinModel::reseat(boxes.drop_last(), size, flipping) {
                Some(partly) => partly.seat(boxes.last().rect.original_size(), boxes.last().index, flipping),
                None => None,
            }
        }
    }

    /// All boxes of the bin find a place again in an empty bin of the new
    /// size.
    pub open spec fn can_resize(self, new_size: Dimension, flipping: bool) -> bool {
        BinModel::reseat(self.placements, BinModel::clamp(new_size), flipping) is Some
    }

    /// The bin after a change of size: its boxes placed anew if all of them
    /// find a place, the bin as it was if not.
    pub open spec fn resize(self, new_size: Dimension, flipping: bool) -> BinModel {
        match BinModel::reseat(self.placements, BinModel::clamp(new_size), flipping) {
            Some(reseated) => reseated,
            None => self,
        }
    }

    /// No box is turned unless turning is permitted.
    pub open spec fn upright(self, flipping: bool) -> bool {
        flipping || forall|i: int| 0 <= i < self.placements.len() ==> !(#[trigger] self.placements[i]).rect.flipped
    }

    /// The numbers and unrotated sizes of the placed boxes, in order.
    pub open spec fn contents(self) -> Seq<(u32, Dimension)> {
        Seq::new(self.placements.len(), |i: int| (self.placements[i].index, self.placements[i].rect.original_size()))
    }
}

/// The cells that replace a cell lie inside it and do not overlap each
/// other; the first holds the box, in the top-left corner and in a size that
/// is the size of the box or its quarter turn, and the others are free.
pub proof fn lemma_place(cell: Cell, dim: Dimension, id: u32, flipping: bool)
    requires
        cell.takes(dim, flipping),
        cell.bounds.representable(),
    ensures
        1 <= cell.place(dim, id).len() <= 3,
        cell.place(dim, id)[0] == (Cell { bounds: cell.placed_rect(dim), id: Some(id) }),
        taken(cell.place(dim, id)) == seq![Placement { index: id, rect: cell.placed_rect(dim) }],
        cell.placed_rect(dim).original_size() == dim,
        cell.placed_rect(dim).flipped ==> flipping,
        forall|j: int|
            0 <= j < cell.place(dim, id).len() ==> (#[trigger] cell.place(dim, id)[j]).bounds.inside(cell.bounds),
        forall|j: int| 1 <= j < cell.place(dim, id).len() ==> (#[trigger] cell.place(dim, id)[j]).id is None,
        forall|i: int, j: int|
            0 <= i < j < cell.place(dim, id).len() ==> !(#[trigger] cell.place(dim, id)[i]).bounds.overlaps(
                (#[trigger] cell.place(dim, id)[j]).bounds,
            ),
{
    let parts = cell.place(dim, id);
    let seated = seq![Placement { index: id, rect: cell.placed_rect(dim) }];
    let first = seq![parts[0]];
    lemma_taken_one(parts[0]);
    assert(taken(first) == seated);
    if parts.len() == 1 {
        assert(parts =~= first);
    } else {
        let two = seq![parts[0], parts[1]];
        assert(two.drop_last() =~= first);
        assert(two.last().id is None);
        assert(taken(two) == seated);
        if parts.len() == 2 {
            assert(parts =~= two);
        } else {
            assert(parts.drop_last() =~= two);
            assert(parts.last().id is None);
            assert(taken(parts) == seated);
        }
    }
}

/// An empty bin has room for a box exactly if the box can lie inside its
/// size.
pub proof fn lemma_fresh(size: Dimension, dim: Dimension, id: u32, flipping: bool)
    ensures
        BinModel::fresh(size).wf(),
        BinModel::fresh(size).accepts(dim, flipping) <==> size.admits(dim, flipping),
        BinModel::fresh(size).seat(dim, id, flipping) is Some <==> size.admits(dim, flipping),
        !size.admits(dim, flipping) ==> BinModel::fresh(size).insert(dim, id, flipping) == BinModel::fresh(size),
{
    let cells = BinModel::fresh(size).cells;
    assert(cells.drop_first() =~= Seq::<Cell>::empty());
    assert(first_fit(Seq::<Cell>::empty(), dim, flipping) == 0);
    lemma_taken_one(cells[0]);
}

/// Placing a box keeps a bin in order. The new box lies inside the bin, has
/// the size that was asked for, up to a quarter turn, and is turned only if
/// that is permitted; the boxes placed before stay where they were.
pub proof fn lemma_seat(bin: BinModel, dim: Dimension, id: u32, flipping: bool)
    requires
        bin.wf(),
        bin.seat(dim, id, flipping) is Some,
    ensures
        bin.seat(dim, id, flipping).unwrap().wf(),
        bin.seat(dim, id, flipping).unwrap().size == bin.size,
        bin.seat(dim, id, flipping).unwrap().last_rejected == bin.last_rejected,
        bin.seat(dim, id, flipping).unwrap().placements.len() == bin.placements.len() + 1,
        bin.seat(dim, id, flipping).unwrap().placements.drop_last() == bin.placements,
        bin.seat(dim, id, flipping).unwrap().placements.last().index == id,
        bin.seat(dim, id, flipping).unwrap().placements.last().rect.original_size() == dim,
        bin.seat(dim, id, flipping).unwrap().placements.last().rect.flipped ==> flipping,
        bin.upright(flipping) ==> bin.seat(dim, id, flipping).unwrap().upright(flipping),
        bin.seat(dim, id, flipping).unwrap().contents() == bin.contents().push((id, dim)),
{
    lemma_first_fit(bin.cells, dim, flipping);
    let k = first_fit(bin.cells, dim, flipping);
    let cell = bin.cells[k];
    let parts = cell.place(dim, id);
    let rect = cell.placed_rect(dim);
    let after = bin.seat(dim, id, flipping).unwrap();
    let n = parts.len() as int;
    lemma_place(cell, dim, id, flipping);
    assert(taken(after.cells).to_multiset() == after.placements.to_multiset()) by {
        broadcast use vstd::seq_lib::group_to_multiset_ensures;

        let head = bin.cells.take(k);
        let tail = bin.cells.skip(k + 1);
        let seated = Placement { index: id, rect };
        assert(bin.cells =~= head + seq![cell] + tail);
        lemma_taken_concat(head, seq![cell]);
        lemma_taken_concat(head + seq![cell], tail);
        lemma_taken_concat(head, parts);
        lemma_taken_concat(head + parts, tail);
        lemma_taken_one(cell);
        assert(taken(bin.cells) =~= taken(head) + taken(tail));
        assert(taken(after.cells) =~= taken(head).push(seated) + taken(tail));
        vstd::seq_lib::lemma_multiset_commutative(taken(head), taken(tail));
        vstd::seq_lib::lemma_multiset_commutative(taken(head).push(seated), taken(tail));
        assert(taken(after.cells).to_multiset() =~= taken(bin.cells).to_multiset().insert(seated));
    }
    assert(after.placements.drop_last() =~= bin.placements);
    assert(after.contents() =~= bin.contents().push((id, dim)));
    if bin.upright(flipping) && !flipping {
        assert forall|i: int| 0 <= i < after.placements.len() implies !(#[trigger] after.placements[i]).rect.flipped by {
            if i < bin.placements.len() {
                assert(after.placements[i] == bin.placements[i]);
            }
        }
    }
    assert(after.cells.len() == bin.cells.len() - 1 + n);
    // every cell of the new partition lies inside a cell of the old one
    let origin = |m: int| if m < k { m } else if m < k + n { k } else { m - n + 1 };
    assert forall|m: int| 0 <= m < after.cells.len() implies {
        &&& 0 <= origin(m) < bin.cells.len()
        &&& (#[trigger] after.cells[m]).bounds.inside(bin.cells[origin(m)].bounds)
        &&& after.cells[m].id is None ==> (origin(m) != k ==> bin.cells[origin(m)].id is None)
        &&& origin(m) != k ==> after.cells[m] == bin.cells[origin(m)]
        &&& origin(m) == k ==> after.cells[m] == parts[m - k]
    } by {
        if m < k {
            assert(after.cells[m] == bin.cells[m]);
        } else if m < k + n {
            assert(after.cells[m] == parts[m - k]);
        } else {
            assert(after.cells[m] == bin.cells[m - n + 1]);
        }
    }
    assert forall|m: int| 0 <= m < after.cells.len() implies (#[trigger] after.cells[m]).bounds.within(
        after.size,
    ) by {
        assert(after.cells[m].bounds.inside(bin.cells[origin(m)].bounds));
    }
    assert forall|m: int, l: int| 0 <= m < l < after.cells.len() implies !(#[trigger] after.cells[m]).bounds.overlaps(
        (#[trigger] after.cells[l]).bounds,
    ) by {
        let om = origin(m);
        let ol = origin(l);
        assert(after.cells[m].bounds.inside(bin.cells[om].bounds));
        assert(after.cells[l].bounds.inside(bin.cells[ol].bounds));
        if om == ol {
            assert(om == k);
            assert(after.cells[m] == parts[m - k]);
            assert(after.cells[l] == parts[l - k]);
        } else {
            assert(om < ol);
            assert(!bin.cells[om].bounds.overlaps(bin.cells[ol].bounds));
        }
    }
    assert(rect.inside(cell.bounds)) by {
        assert(parts[0].bounds.inside(cell.bounds));
    }
    assert forall|i: int| 0 <= i < after.placements.len() implies (#[trigger] after.placements[i]).rect.within(
        after.size,
    ) by {
        if i < bin.placements.len() {
            assert(after.placements[i] == bin.placements[i]);
        }
    }
    assert forall|i: int, j: int| 0 <= i < j < after.placements.len() implies !(
    #[trigger] after.placements[i]).rect.overlaps((#[trigger] after.placements[j]).rect) by {
        assert(after.placements[i] == bin.placements[i]);
        if j < bin.placements.len() {
            assert(after.placements[j] == bin.placements[j]);
        } else {
            assert(!bin.cells[k].bounds.overlaps(bin.placements[i].rect));
        }
    }
    assert forall|m: int, i: int|
        0 <= m < after.cells.len() && 0 <= i < after.placements.len() && after.cells[m].id is None implies !(
    #[trigger] after.cells[m]).bounds.overlaps((#[trigger] after.placements[i]).rect) by {
        let om = origin(m);
        assert(after.cells[m].bounds.inside(bin.cells[om].bounds));
        if i < bin.placements.len() {
            assert(after.placements[i] == bin.placements[i]);
            if om == k {
                assert(!bin.cells[k].bounds.overlaps(bin.placements[i].rect));
            } else {
                assert(!bin.cells[om].bounds.overlaps(bin.placements[i].rect));
            }
        } else {
            if om == k {
                assert(after.cells[m] == parts[m - k]);
                assert(m - k >= 1);
                assert(!parts[0].bounds.overlaps(parts[m - k].bounds));
            } else if om < k {
                assert(!bin.cells[om].bounds.overlaps(bin.cells[k].bounds));
            } else {
                assert(!bin.cells[k].bounds.overlaps(bin.cells[om].bounds));
            }
        }
    }
}

/// Boxes that find no place one after the other find none when more boxes
/// follow them.
pub proof fn lemma_reseat_fails(boxes: Seq<Placement>, upto: int, size: Dimension, flipping: bool)
    requires
        0 <= upto <= boxes.len(),
        BinModel::reseat(boxes.take(upto), size, flipping) is None,
    ensures
        BinModel::reseat(boxes, size, flipping) is None,
    decreases boxes.len(),
{
    if upto < boxes.len() {
        assert(boxes.drop_last().take(upto) =~= boxes.take(upto));
        lemma_reseat_fails(boxes.drop_last(), upto, size, flipping);
    } else {
        assert(boxes.take(upto) =~= boxes);
    }
}

/// Boxes placed anew in an empty bin are in order there, under their old
/// numbers and in their old unrotated sizes; the bin has turned nothing away.
pub proof fn lemma_reseat(boxes: Seq<Placement>, size: Dimension, flipping: bool)
    requires
        BinModel::reseat(boxes, size, flipping) is Some,
    ensures
        BinModel::reseat(boxes, size, flipping).unwrap().wf(),
        BinModel::reseat(boxes, size, flipping).unwrap().size == size,
        BinModel::reseat(boxes, size, flipping).unwrap().last_rejected == size,
        BinModel::reseat(boxes, size, flipping).unwrap().placements.len() == boxes.len(),
        BinModel::reseat(boxes, size, flipping).unwrap().upright(flipping),
        BinModel::reseat(boxes, size, flipping).unwrap().contents() == Seq::new(
            boxes.len(),
            |i: int| (boxes[i].index, boxes[i].rect.original_size()),
        ),
    decreases boxes.len(),
{
    if boxes.len() == 0 {
        lemma_fresh(size, size, 0, flipping);
        assert(BinModel::fresh(size).contents() =~= Seq::new(
            boxes.len(),
            |i: int| (boxes[i].index, boxes[i].rect.original_size()),
        ));
    } else {
        let partly = BinModel::reseat(boxes.drop_last(), size, flipping).unwrap();
        lemma_reseat(boxes.drop_last(), size, flipping);
        lemma_seat(partly, boxes.last().rect.original_size(), boxes.last().index, flipping);
        let done = BinModel::reseat(boxes, size, flipping).unwrap();
        assert(done.contents() =~= Seq::new(
            boxes.len(),
            |i: int| (boxes[i].index, boxes[i].rect.original_size()),
        )) by {
            assert forall|i: int| 0 <= i < boxes.len() implies done.contents()[i] == (
                boxes[i].index,
                boxes[i].rect.original_size(),
            ) by {
                if i < boxes.len() - 1 {
                    assert(partly.contents()[i] == (boxes.drop_last()[i].index, boxes.drop_last()[i].rect.original_size()));
                }
            }
        }
    }
}

/// One atlas. `size` and `placements` are for reading: the partition that
/// goes with them is kept inside.
#[derive(Clone, PartialEq, Eq, Debug)]
pub struct Bin {
    pub size: Dimension,
    pub placements: Vec<Placement>,
    node: Box<Node>,
    last_rejected_size: Dimension,
}

impl Bin {
    /// The leaves of the partition, from left to right.
    pub closed spec fn cells(&self) -> Seq<Cell> {
        self.node.cells()
    }

    /// The size of the box that was turned away last; the size of the bin
    /// while none was.
    pub closed spec fn last_rejected(&self) -> Dimension {
        self.last_rejected_size
    }

    /// The partition is a well-formed tree that spans the bin.
    pub closed spec fn tree_wf(&self) -> bool {
        &&& self.node.wf()
        &&& self.node.bounds.x == 0
        &&& self.node.bounds.y == 0
        &&& self.node.bounds.size == self.size
    }

    /// The bin as contracts see it: the fields `size` and `placements` as
    /// they stand, the leaves of the partition, and the size that was turned
    /// away last.
    pub closed spec fn model(&self) -> BinModel {
        BinModel {
            size: self.size,
            placements: self.placements@,
            cells: self.cells(),
            last_rejected: self.last_rejected(),
        }
    }

    /// The bin is in order: see [`BinModel::wf`].
    pub open spec fn wf(&self) -> bool {
        self.tree_wf() && self.model().wf()
    }

    /// The empty bin of the given size.
    pub fn new(size: &Dimension) -> (bin: Bin)
        ensures
            bin.wf(),
            bin.model() == BinModel::fresh(*size),
    {
        proof {
            lemma_fresh(*size, *size, 0, false);
        }
        Bin { size: *size, placements: Vec::new(), node: Box::new(Node::new(size)), last_rejected_size: *size }
    }

    /// The current size, as the field `size` holds it.
    pub fn size(&self) -> (size: Dimension)
        ensures
            size == self.model().size,
    {
        self.size
    }

    /// The boxes placed so far, as the field `placements` holds them.
    pub fn placements(&self) -> (placements: &Vec<Placement>)
        ensures
            placements@ == self.model().placements,
    {
        &self.placements
    }

    /// Offers a box to the bin. Returns whether the bin took it.
    pub fn insert(&mut self, rect: &Dimension, id: u32, flipping_allowed: bool) -> (accepted: bool)
        requires
            old(self).wf(),
        ensures
            final(self).wf(),
            accepted == old(self).model().accepts(*rect, flipping_allowed),
            final(self).model() == old(self).model().insert(*rect, id, flipping_allowed),
            final(self).model().contents() == if accepted {
                old(self).model().contents().push((id, *rect))
            } else {
                old(self).model().contents()
            },
    {
        if !self.last_rejected_size.fits(rect).is_allowed(flipping_allowed) {
            return false;
        }
        proof {
            if old(self).model().seat(*rect, id, flipping_allowed) is Some {
                lemma_seat(old(self).model(), *rect, id, flipping_allowed);
            }
        }
        if let Some(rect) = self.node.insert(rect, id, flipping_allowed) {
            self.placements.push(Placement { rect, index: id });
            true
        } else {
            self.last_rejected_size = *rect;
            false
        }
    }

    /// Changes the size of the bin and places its boxes anew, each in its
    /// unrotated size. Returns whether all of them found a place; if one did
    /// not, the bin is left as it was.
    pub fn resize(&mut self, new_size: Dimension, flipping_allowed: bool) -> (resized: bool)
        requires
            old(self).wf(),
        ensures
            final(self).wf(),
            resized == old(self).model().can_resize(new_size, flipping_allowed),
            final(self).model() == old(self).model().resize(new_size, flipping_allowed),
            final(self).model().contents() == old(self).model().contents(),
            resized ==> final(self).model().size == BinModel::clamp(new_size),
    {
        let clamped = Dimension {
            w: if new_size.w < 1 { 1 } else { new_size.w },
            h: if new_size.h < 1 { 1 } else { new_size.h },
        };
        let mut new_node = Node::new(&clamped);
        let mut placements: Vec<Placement> = Vec::with_capacity(self.placements.len());
        let mut i: usize = 0;
        while i < self.placements.len()
            invariant
                0 <= i <= self.placements.len(),
                *self == *old(self),
                self.wf(),
                clamped == BinModel::clamp(new_size),
                new_node.wf(),
                new_node.bounds.x == 0,
                new_node.bounds.y == 0,
                new_node.bounds.size == clamped,
                BinModel::reseat(self.placements@.take(i as int), clamped, flipping_allowed) == Some(
                    BinModel {
                        size: clamped,
                        placements: placements@,
                        cells: new_node.cells(),
                        last_rejected: clamped,
                    },
                ),
            decreases self.placements.len() - i,
        {
            let placement = self.placements[i];
            let ghost upto = self.placements@.take(i as int + 1);
            proof {
                assert(upto.drop_last() =~= self.placements@.take(i as int));
                assert(upto.last() == placement);
            }
            if let Some(rect) = new_node.insert(&placement.rect.non_flipped_size(), placement.index, flipping_allowed) {
                placements.push(Placement { rect, index: placement.index });
            } else {
                proof {
                    lemma_reseat_fails(self.placements@, i as int + 1, clamped, flipping_allowed);
                }
                return false;
            }
            i += 1;
        }
        proof {
            assert(self.placements@.take(i as int) =~= self.placements@);
            lemma_reseat(self.placements@, clamped, flipping_allowed);
            assert(BinModel::reseat(self.placements@, clamped, flipping_allowed).unwrap().contents()
                =~= self.model().contents());
        }
        self.node = Box::new(new_node);
        self.placements = placements;
        self.size = clamped;
        self.last_rejected_size = clamped;
        true
    }
}

} // verus!
