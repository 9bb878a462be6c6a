//! What a packing run promises about its outcome, stated for every outcome
//! and proved from the contracts of the run.

use vstd::prelude::*;
use crate::bin::BinModel;
use crate::geometry::Dimension;
use crate::heuristics::{PackHeuristic, PackInput};
use crate::options::{lemma_members, PackOptions};
use crate::pack::{all_admitted, boxes, models, numbered, placed, wanted, PackResult};

verus! {

/// The place in [`boxes`] at which the boxes of the bin `at` begin.
pub open spec fn start(bins: Seq<BinModel>, at: int) -> int {
    boxes(bins.take(at)).len() as int
}

/// The boxes of a bin begin where those of the bin before it end.
pub proof fn lemma_start_next(bins: Seq<BinModel>, at: int)
    requires
        0 <= at < bins.len(),
    ensures
        start(bins, at + 1) == start(bins, at) + bins[at].placements.len(),
        start(bins, 0) == 0,
        start(bins, at) >= 0,
{
    assert(bins.take(at + 1).drop_last() =~= bins.take(at));
    assert(bins.take(at + 1).last() == bins[at]);
    assert(bins.take(0) =~= Seq::<BinModel>::empty());
}

/// The boxes of an earlier bin end before those of a later bin begin.
pub proof fn lemma_start_grows(bins: Seq<BinModel>, earlier: int, later: int)
    requires
        0 <= earlier < later <= bins.len(),
    ensures
        start(bins, earlier) + bins[earlier].placements.len() <= start(bins, later),
    decreases later - earlier,
{
    lemma_start_next(bins, later - 1);
    if earlier < later - 1 {
        lemma_start_grows(bins, earlier, later - 1);
    }
}

/// The box at place `j` of the bin `b` stands in [`boxes`] at `j` behind the
/// start of that bin.
pub proof fn lemma_box_position(bins: Seq<BinModel>, b: int, j: int)
    requires
        0 <= b < bins.len(),
        0 <= j < bins[b].placements.len(),
    ensures
        0 <= start(bins, b) + j < boxes(bins).len(),
        boxes(bins)[start(bins, b) + j] == (bins[b].placements[j].index, bins[b].placements[j].rect.original_size()),
    decreases bins.len(),
{
    let head = bins.drop_last();
    if b == bins.len() - 1 {
        assert(bins.take(b) =~= head);
    } else {
        assert(bins.take(b) =~= head.take(b));
        lemma_box_position(head, b, j);
    }
}

/// Two different places in the bins are two different places in [`boxes`].
pub proof fn lemma_positions_apart(bins: Seq<BinModel>, b: int, j: int, c: int, k: int)
    requires
        0 <= b < bins.len(),
        0 <= j < bins[b].placements.len(),
        0 <= c < bins.len(),
        0 <= k < bins[c].placements.len(),
        b != c || j != k,
    ensures
        start(bins, b) + j != start(bins, c) + k,
{
    if b < c {
        lemma_start_grows(bins, b, c);
    } else if c < b {
        lemma_start_grows(bins, c, b);
    }
}

/// Some box among `held` carries the number.
pub open spec fn carries(held: Seq<(u32, Dimension)>, number: int) -> bool {
    exists|p: int| 0 <= p < held.len() && (#[trigger] held[p]).0 == number
}

/// The boxes that were handed in, numbered, are all different as long as
/// their numbers fit the type of a number.
pub proof fn lemma_numbered(rectangles: Seq<Dimension>)
    requires
        rectangles.len() <= 0x1_0000_0000,
    ensures
        numbered(rectangles).len() == rectangles.len(),
        forall|i: int|
            0 <= i < rectangles.len() ==> (#[trigger] numbered(rectangles)[i]).id == i && numbered(
                rectangles,
            )[i].dim == rectangles[i],
        numbered(rectangles).map_values(|input: PackInput| (input.id, input.dim)).no_duplicates(),
{
    let pairs = numbered(rectangles).map_values(|input: PackInput| (input.id, input.dim));
    assert forall|i: int, j: int| 0 <= i < pairs.len() && 0 <= j < pairs.len() && i != j implies pairs[i]
        != pairs[j] by {
        assert(pairs[i].0 == i);
        assert(pairs[j].0 == j);
    }
}

/// Where every box that was handed in is placed and no other, the bins
/// together hold as many boxes as were handed in, however many those are.
pub proof fn lemma_all_placed(bins: Seq<BinModel>, rectangles: Seq<Dimension>)
    requires
        placed(bins) == wanted(numbered(rectangles)),
    ensures
        boxes(bins).len() == rectangles.len(),
{
    let pairs = numbered(rectangles).map_values(|input: PackInput| (input.id, input.dim));
    boxes(bins).to_multiset_ensures();
    pairs.to_multiset_ensures();
}

/// Where every box that was handed in is placed and no other, the bins
/// together hold as many boxes as were handed in; each box in them carries
/// the number of a box that was handed in and has the size of that box before
/// any rotation; no number occurs twice; and every number occurs.
pub proof fn lemma_all_placed_once(bins: Seq<BinModel>, rectangles: Seq<Dimension>)
    requires
        placed(bins) == wanted(numbered(rectangles)),
        rectangles.len() <= 0x1_0000_0000,
    ensures
        boxes(bins).len() == rectangles.len(),
        forall|p: int|
            0 <= p < boxes(bins).len() ==> (#[trigger] boxes(bins)[p]).0 < rectangles.len() && boxes(bins)[p].1
                == rectangles[boxes(bins)[p].0 as int],
        forall|p: int, q: int|
            0 <= p < boxes(bins).len() && 0 <= q < boxes(bins).len() && p != q ==> (#[trigger] boxes(bins)[p]).0 != (
            #[trigger] boxes(bins)[q]).0,
        forall|i: int| 0 <= i < rectangles.len() ==> #[trigger] carries(boxes(bins), i),
{
    broadcast use vstd::seq_lib::group_to_multiset_ensures;

    let held = boxes(bins);
    let pairs = numbered(rectangles).map_values(|input: PackInput| (input.id, input.dim));
    lemma_numbered(rectangles);
    assert(held.to_multiset() == pairs.to_multiset());
    lemma_all_placed(bins, rectangles);
    assert forall|p: int| 0 <= p < held.len() implies (#[trigger] held[p]).0 < rectangles.len() && held[p].1
        == rectangles[held[p].0 as int] by {
        assert(held.contains(held[p]));
        assert(pairs.to_multiset().count(held[p]) > 0);
        assert(pairs.contains(held[p]));
        let i = choose|i: int| 0 <= i < pairs.len() && pairs[i] == held[p];
        assert(pairs[i].0 == i);
    }
    pairs.lemma_multiset_has_no_duplicates();
    held.lemma_multiset_has_no_duplicates_conv();
    assert forall|p: int, q: int| 0 <= p < held.len() && 0 <= q < held.len() && p != q implies (
    #[trigger] held[p]).0 != (#[trigger] held[q]).0 by {
        if held[p].0 == held[q].0 {
            assert(held[p] == held[q]);
        }
    }
    assert forall|i: int| 0 <= i < rectangles.len() implies #[trigger] carries(held, i) by {
        assert(pairs.contains(pairs[i]));
        assert(held.to_multiset().count(pairs[i]) > 0);
        assert(held.contains(pairs[i]));
        let p = choose|p: int| 0 <= p < held.len() && held[p] == pairs[i];
        assert(held[p].0 == i);
    }
}

/// Where every box that was handed in is placed and no other, a placement
/// carries the number of a box that was handed in, and its rectangle has the
/// size of that box: with the sides exchanged if the placement is flipped,
/// as they were if not.
pub proof fn lemma_placement_keeps_size(bins: Seq<BinModel>, rectangles: Seq<Dimension>, b: int, j: int)
    requires
        placed(bins) == wanted(numbered(rectangles)),
        rectangles.len() <= 0x1_0000_0000,
        0 <= b < bins.len(),
        0 <= j < bins[b].placements.len(),
    ensures
        bins[b].placements[j].index < rectangles.len(),
        bins[b].placements[j].rect.original_size() == rectangles[bins[b].placements[j].index as int],
        bins[b].placements[j].rect.flipped ==> bins[b].placements[j].rect.size == (Dimension {
            w: rectangles[bins[b].placements[j].index as int].h,
            h: rectangles[bins[b].placements[j].index as int].w,
        }),
        !bins[b].placements[j].rect.flipped ==> bins[b].placements[j].rect.size
            == rectangles[bins[b].placements[j].index as int],
{
    lemma_all_placed_once(bins, rectangles);
    lemma_box_position(bins, b, j);
    let p = start(bins, b) + j;
    assert(boxes(bins)[p].0 < rectangles.len());
}

/// Where every box that was handed in is placed and no other, two
/// placements with the same number are the same placement in the same bin.
pub proof fn lemma_number_placed_once(bins: Seq<BinModel>, rectangles: Seq<Dimension>, b: int, j: int, c: int, k: int)
    requires
        placed(bins) == wanted(numbered(rectangles)),
        rectangles.len() <= 0x1_0000_0000,
        0 <= b < bins.len(),
        0 <= j < bins[b].placements.len(),
        0 <= c < bins.len(),
        0 <= k < bins[c].placements.len(),
        bins[b].placements[j].index == bins[c].placements[k].index,
    ensures
        b == c,
        j == k,
{
    lemma_all_placed_once(bins, rectangles);
    lemma_box_position(bins, b, j);
    lemma_box_position(bins, c, k);
    if b != c || j != k {
        lemma_positions_apart(bins, b, j, c, k);
        let p = start(bins, b) + j;
        let q = start(bins, c) + k;
        assert(boxes(bins)[p].0 != boxes(bins)[q].0);
    }
}

/// Where every box that was handed in is placed and no other, every number
/// has a placement in some bin.
pub proof fn lemma_number_placed(bins: Seq<BinModel>, rectangles: Seq<Dimension>, i: int)
    requires
        placed(bins) == wanted(numbered(rectangles)),
        rectangles.len() <= 0x1_0000_0000,
        0 <= i < rectangles.len(),
    ensures
        exists|b: int, j: int|
            0 <= b < bins.len() && 0 <= j < bins[b].placements.len() && (#[trigger] bins[b].placements[j]).index
                == i,
{
    lemma_all_placed_once(bins, rectangles);
    assert(carries(boxes(bins), i));
    let p = choose|p: int| 0 <= p < boxes(bins).len() && (#[trigger] boxes(bins)[p]).0 == i;
    lemma_box_found(bins, p);
    let (b, j) = choose|b: int, j: int|
        0 <= b < bins.len() && 0 <= j < bins[b].placements.len() && boxes(bins)[p] == (
            (#[trigger] bins[b].placements[j]).index,
            bins[b].placements[j].rect.original_size(),
        );
    assert(bins[b].placements[j].index == i);
}

/// Every place in [`boxes`] is a place in one of the bins.
pub proof fn lemma_box_found(bins: Seq<BinModel>, p: int)
    requires
        0 <= p < boxes(bins).len(),
    ensures
        exists|b: int, j: int|
            0 <= b < bins.len() && 0 <= j < bins[b].placements.len() && boxes(bins)[p] == (
                (#[trigger] bins[b].placements[j]).index,
                bins[b].placements[j].rect.original_size(),
            ),
    decreases bins.len(),
{
    let head = bins.drop_last();
    if p < boxes(head).len() {
        lemma_box_found(head, p);
        let (b, j) = choose|b: int, j: int|
            0 <= b < head.len() && 0 <= j < head[b].placements.len() && boxes(head)[p] == (
                (#[trigger] head[b].placements[j]).index,
                head[b].placements[j].rect.original_size(),
            );
        assert(bins[b].placements[j] == head[b].placements[j]);
    } else {
        let b = bins.len() - 1;
        let j = p - boxes(head).len();
        assert(boxes(bins)[p] == (bins[b].placements[j].index, bins[b].placements[j].rect.original_size()));
    }
}

/// Within a bin that is in order every placement lies inside the bin, and no
/// two placements overlap.
pub proof fn lemma_placements_apart(bin: BinModel, i: int, j: int)
    requires
        bin.wf(),
        0 <= i < bin.placements.len(),
        0 <= j < bin.placements.len(),
        i != j,
    ensures
        bin.placements[i].rect.right() <= bin.size.w,
        bin.placements[i].rect.bottom() <= bin.size.h,
        !bin.placements[i].rect.overlaps(bin.placements[j].rect),
{
    if i < j {
        assert(!bin.placements[i].rect.overlaps(bin.placements[j].rect));
    } else {
        assert(!bin.placements[j].rect.overlaps(bin.placements[i].rect));
    }
    assert(bin.placements[i].rect.within(bin.size));
}

/// Two runs over the same boxes with the same options and the same key end
/// with the same bins: the same sizes, the same placements in the same
/// order, the same partitions.
pub proof fn lemma_runs_agree(
    first: PackResult,
    second: PackResult,
    inputs: Seq<PackInput>,
    options: PackOptions,
    key: PackHeuristic,
)
    requires
        first.packs(inputs, options, key),
        second.packs(inputs, options, key),
    ensures
        first.heuristics == second.heuristics,
        models(first.bins@) == models(second.bins@),
{
}

/// The outcomes of a run, one for each key of the options, carry each key of
/// the options once and no other key.
pub proof fn lemma_keys_covered(results: Seq<PackResult>, inputs: Seq<PackInput>, options: PackOptions)
    requires
        results.len() == options.pack_heuristics.members().len(),
        forall|i: int|
            0 <= i < results.len() ==> (#[trigger] results[i]).packs(
                inputs,
                options,
                options.pack_heuristics.members()[i],
            ),
    ensures
        results.map_values(|result: PackResult| result.heuristics) == options.pack_heuristics.members(),
        results.map_values(|result: PackResult| result.heuristics).no_duplicates(),
        results.map_values(|result: PackResult| result.heuristics).to_set() == options.pack_heuristics@,
{
    lemma_members(options.pack_heuristics);
    assert(results.map_values(|result: PackResult| result.heuristics) =~= options.pack_heuristics.members());
}

/// The outcome of a run over boxes that can all lie inside the largest size:
/// every box is placed exactly once; every placement lies inside its bin,
/// carries the number of a box that was handed in, has the size of that box
/// up to a quarter turn, and is turned only if turning is permitted; and no
/// two placements of a bin overlap.
pub proof fn lemma_outcome(result: PackResult, rectangles: Seq<Dimension>, options: PackOptions, key: PackHeuristic)
    requires
        result.packs(numbered(rectangles), options, key),
        all_admitted(numbered(rectangles), options),
        rectangles.len() <= 0x1_0000_0000,
    ensures
        boxes(models(result.bins@)).len() == rectangles.len(),
        forall|i: int| 0 <= i < rectangles.len() ==> #[trigger] carries(boxes(models(result.bins@)), i),
        forall|b: int, j: int|
            0 <= b < result.bins@.len() && 0 <= j < models(result.bins@)[b].placements.len() ==> {
                let bin = models(result.bins@)[b];
                let p = #[trigger] models(result.bins@)[b].placements[j];
                &&& p.index < rectangles.len()
                &&& p.rect.original_size() == rectangles[p.index as int]
                &&& p.rect.flipped ==> options.flipping
                &&& p.rect.right() <= bin.size.w
                &&& p.rect.bottom() <= bin.size.h
            },
        forall|b: int, j: int, k: int|
            0 <= b < result.bins@.len() && 0 <= j < models(result.bins@)[b].placements.len() && 0 <= k < models(
                result.bins@,
            )[b].placements.len() && j != k ==> !(#[trigger] models(result.bins@)[b].placements[j]).rect.overlaps(
                (#[trigger] models(result.bins@)[b].placements[k]).rect,
            ),
        forall|b: int, j: int, c: int, k: int|
            0 <= b < result.bins@.len() && 0 <= j < models(result.bins@)[b].placements.len() && 0 <= c
                < result.bins@.len() && 0 <= k < models(result.bins@)[c].placements.len() && (
            #[trigger] models(result.bins@)[b].placements[j]).index == (#[trigger] models(
                result.bins@,
            )[c].placements[k]).index ==> b == c && j == k,
{
    let bins = models(result.bins@);
    lemma_all_placed_once(bins, rectangles);
    assert forall|b: int, j: int| 0 <= b < result.bins@.len() && 0 <= j < bins[b].placements.len() implies {
        let bin = bins[b];
        let p = #[trigger] bins[b].placements[j];
        &&& p.index < rectangles.len()
        &&& p.rect.original_size() == rectangles[p.index as int]
        &&& p.rect.flipped ==> options.flipping
        &&& p.rect.right() <= bin.size.w
        &&& p.rect.bottom() <= bin.size.h
    } by {
        lemma_placement_keeps_size(bins, rectangles, b, j);
        assert(result.bins@[b].wf());
        assert(bins[b] == result.bins@[b].model());
        assert(bins[b].placements[j].rect.within(bins[b].size));
    }
    assert forall|b: int, j: int, k: int|
        0 <= b < result.bins@.len() && 0 <= j < bins[b].placements.len() && 0 <= k < bins[b].placements.len() && j
            != k implies !(#[trigger] bins[b].placements[j]).rect.overlaps((#[trigger] bins[b].placements[k]).rect) by {
        assert(result.bins@[b].wf());
        assert(bins[b] == result.bins@[b].model());
        lemma_placements_apart(bins[b], j, k);
    }
    assert forall|b: int, j: int, c: int, k: int|
        0 <= b < result.bins@.len() && 0 <= j < bins[b].placements.len() && 0 <= c < result.bins@.len() && 0 <= k
            < bins[c].placements.len() && (#[trigger] bins[b].placements[j]).index == (
        #[trigger] bins[c].placements[k]).index implies b == c && j == k by {
        lemma_number_placed_once(bins, rectangles, b, j, c, k);
    }
}

} // verus!
