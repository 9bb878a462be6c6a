//! The packing run: boxes are offered to the open bins in turn, a new bin is
//! opened for a box that none of them takes, and this is done once for each
//! key that the caller chose.

use rayon::iter::{IntoParallelRefIterator, ParallelIterator};
use vstd::multiset::Multiset;
use vstd::prelude::*;
use crate::bin::{lemma_fresh, lemma_reseat, lemma_seat, Bin, BinModel};
use crate::geometry::{lemma_admits_monotone, Dimension};
use crate::heuristics::{lemma_sorted_permutes, PackHeuristic, PackInput};
use crate::options::PackOptions;

verus! {

/// The length by which a side grows in one step, and with which it starts:
/// the largest length divided by one more than the number of steps, but at
/// least one.
pub open spec fn stride(side: u32, options: PackOptions) -> int {
    let part = side as int / (options.atlas_compact_steps as int + 1);
    if part < 1 {
        1
    } else {
        part
    }
}

/// The size with which a bin is opened.
pub open spec fn initial_size(options: PackOptions) -> Dimension {
    if options.atlas_compact_steps == 0 {
        options.bin_size
    } else {
        Dimension {
            w: stride(options.bin_size.w, options) as u32,
            h: stride(options.bin_size.h, options) as u32,
        }
    }
}

/// The next size to try after `current`: one stride more on each side, but
/// no more than the largest size.
pub open spec fn grown(current: Dimension, options: PackOptions) -> Dimension {
    let w = current.w + stride(options.bin_size.w, options);
    let h = current.h + stride(options.bin_size.h, options);
    Dimension {
        w: if w < options.bin_size.w { w as u32 } else { options.bin_size.w },
        h: if h < options.bin_size.h { h as u32 } else { options.bin_size.h },
    }
}

/// How far `current` is from the largest size, both sides together.
pub open spec fn slack(current: Dimension, options: PackOptions) -> nat {
    let w = if current.w < options.bin_size.w { options.bin_size.w - current.w } else { 0 };
    let h = if current.h < options.bin_size.h { options.bin_size.h - current.h } else { 0 };
    (w + h) as nat
}

/// The bin after a box was offered to it with growth, and whether it took
/// the box. While the bin turns the box away and `current` is below the
/// largest size on some side, `current` grows by one stride and the bin
/// tries to take that size; whether or not it can, the box is offered again.
pub open spec fn grow_insert(bin: BinModel, current: Dimension, dim: Dimension, id: u32, options: PackOptions) -> (
    BinModel,
    bool,
)
    decreases slack(current, options),
{
    if bin.accepts(dim, options.flipping) {
        (bin.insert(dim, id, options.flipping), true)
    } else if current.w >= options.bin_size.w && current.h >= options.bin_size.h {
        (bin.insert(dim, id, options.flipping), false)
    } else {
        let next = grown(current, options);
        grow_insert(bin.insert(dim, id, options.flipping).resize(next, options.flipping), next, dim, id, options)
    }
}

/// The bin after a box was offered to it in the way that the options choose,
/// and whether it took the box.
pub open spec fn offered(bin: BinModel, dim: Dimension, id: u32, options: PackOptions) -> (BinModel, bool) {
    if options.atlas_compact_steps == 0 {
        (bin.insert(dim, id, options.flipping), bin.accepts(dim, options.flipping))
    } else {
        grow_insert(bin, bin.size, dim, id, options)
    }
}

/// No side of the bin is longer than the largest size allows, where a
/// largest length of zero counts as one.
pub open spec fn capped(bin: BinModel, options: PackOptions) -> bool {
    bin.size.w <= BinModel::clamp(options.bin_size).w && bin.size.h <= BinModel::clamp(options.bin_size).h
}

/// What holds of a bin before and after a box was offered to it: the bin
/// holds the boxes it held, and the new one if it took it; it stays within
/// the largest size; and no box in it is turned unless that is permitted.
pub open spec fn fair(before: BinModel, after: BinModel, taken: bool, dim: Dimension, id: u32, options: PackOptions) -> bool {
    &&& after.wf()
    &&& after.contents() == if taken {
        before.contents().push((id, dim))
    } else {
        before.contents()
    }
    &&& capped(before, options) ==> capped(after, options)
    &&& before.upright(options.flipping) ==> after.upright(options.flipping)
}

/// The bin is empty and has turned nothing away.
pub open spec fn untouched(bin: BinModel) -> bool {
    bin == BinModel::fresh(bin.size)
}

/// Opens an empty bin.
pub fn new_bin(options: &PackOptions) -> (bin: Bin)
    ensures
        bin.wf(),
        bin.model() == BinModel::fresh(initial_size(*options)),
        capped(bin.model(), *options),
        bin.model().upright(options.flipping),
{
    if options.atlas_compact_steps == 0 {
        return Bin::new(&options.bin_size);
    }
    let size_divisor: u32 = options.atlas_compact_steps as u32 + 1;
    let w = options.bin_size.w / size_divisor;
    let h = options.bin_size.h / size_divisor;
    Bin::new(&Dimension::new(if w < 1 { 1 } else { w }, if h < 1 { 1 } else { h }))
}

/// Offers a box to a bin that does not grow.
pub fn try_insert(bin: &mut Bin, rect: &Dimension, id: u32, options: &PackOptions) -> (taken: bool)
    requires
        old(bin).wf(),
    ensures
        final(bin).wf(),
        taken == old(bin).model().accepts(*rect, options.flipping),
        final(bin).model() == old(bin).model().insert(*rect, id, options.flipping),
        fair(old(bin).model(), final(bin).model(), taken, *rect, id, *options),
        untouched(old(bin).model()) && old(bin).model().size.admits(*rect, options.flipping) ==> taken,
{
    proof {
        let before = bin.model();
        lemma_fresh(before.size, *rect, id, options.flipping);
        if before.seat(*rect, id, options.flipping) is Some {
            lemma_seat(before, *rect, id, options.flipping);
        }
    }
    bin.insert(rect, id, options.flipping)
}

/// Offers a box to a bin that may grow up to the largest size.
pub fn try_insert_with_growth(bin: &mut Bin, rect: &Dimension, id: u32, options: &PackOptions) -> (taken: bool)
    requires
        old(bin).wf(),
    ensures
        final(bin).wf(),
        (final(bin).model(), taken) == grow_insert(old(bin).model(), old(bin).model().size, *rect, id, *options),
        fair(old(bin).model(), final(bin).model(), taken, *rect, id, *options),
        untouched(old(bin).model()) && (old(bin).model().size.admits(*rect, options.flipping)
            || options.bin_size.admits(*rect, options.flipping)) ==> taken,
{
    let size_divisor: u32 = options.atlas_compact_steps as u32 + 1;
    let inc_w = options.bin_size.w / size_divisor;
    let inc_w: u32 = if inc_w < 1 { 1 } else { inc_w };
    let inc_h = options.bin_size.h / size_divisor;
    let inc_h: u32 = if inc_h < 1 { 1 } else { inc_h };
    let mut current_size = bin.size();
    let ghost before = bin.model();
    loop
        invariant
            bin.wf(),
            inc_w == stride(options.bin_size.w, *options),
            inc_h == stride(options.bin_size.h, *options),
            before == old(bin).model(),
            grow_insert(before, before.size, *rect, id, *options) == grow_insert(
                bin.model(),
                current_size,
                *rect,
                id,
                *options,
            ),
            bin.model().contents() == before.contents(),
            capped(before, *options) ==> capped(bin.model(), *options),
            before.upright(options.flipping) ==> bin.model().upright(options.flipping),
            untouched(before) ==> {
                &&& bin.model() == BinModel::fresh(bin.model().size)
                &&& bin.model().size.w >= current_size.w
                &&& bin.model().size.h >= current_size.h
            },
        decreases slack(current_size, *options),
    {
        let ghost tried = bin.model();
        proof {
            lemma_fresh(tried.size, *rect, id, options.flipping);
            if tried.seat(*rect, id, options.flipping) is Some {
                lemma_seat(tried, *rect, id, options.flipping);
            }
        }
        if bin.insert(rect, id, options.flipping) {
            return true;
        }
        if current_size.w >= options.bin_size.w && current_size.h >= options.bin_size.h {
            proof {
                if untouched(before) && options.bin_size.admits(*rect, options.flipping) {
                    lemma_admits_monotone(options.bin_size, tried.size, *rect, options.flipping);
                }
            }
            return false;
        }
        let w = current_size.w as u64 + inc_w as u64;
        let h = current_size.h as u64 + inc_h as u64;
        current_size = Dimension::new(
            if w < options.bin_size.w as u64 { w as u32 } else { options.bin_size.w },
            if h < options.bin_size.h as u64 { h as u32 } else { options.bin_size.h },
        );
        let ghost turned_away = bin.model();
        proof {
            if turned_away.can_resize(current_size, options.flipping) {
                lemma_reseat(turned_away.placements, BinModel::clamp(current_size), options.flipping);
                assert(turned_away.resize(current_size, options.flipping).contents() =~= turned_away.contents());
            }
        }
        if !bin.resize(current_size, options.flipping) {
            continue;
        }
    }
}

/// Offers a box to a bin in the way that the options choose: with growth if
/// there are growth steps, without if there are none.
pub fn offer(bin: &mut Bin, rect: &Dimension, id: u32, options: &PackOptions) -> (taken: bool)
    requires
        old(bin).wf(),
    ensures
        final(bin).wf(),
        (final(bin).model(), taken) == offered(old(bin).model(), *rect, id, *options),
        fair(old(bin).model(), final(bin).model(), taken, *rect, id, *options),
        untouched(old(bin).model()) && (old(bin).model().size.admits(*rect, options.flipping) || (
        options.atlas_compact_steps > 0 && options.bin_size.admits(*rect, options.flipping))) ==> taken,
{
    if options.atlas_compact_steps == 0 {
        try_insert(bin, rect, id, options)
    } else {
        try_insert_with_growth(bin, rect, id, options)
    }
}

/// The bins as contracts see them.
pub open spec fn models(bins: Seq<Bin>) -> Seq<BinModel> {
    bins.map_values(|bin: Bin| bin.model())
}

/// Every bin is in order and within the largest size, and no box is turned
/// unless that is permitted.
pub open spec fn all_wf(bins: Seq<Bin>, options: PackOptions) -> bool {
    forall|b: int|
        0 <= b < bins.len() ==> (#[trigger] bins[b]).wf() && capped(bins[b].model(), options) && bins[b].model().upright(
            options.flipping,
        )
}

/// The bins after a box was offered to them in turn, starting with the bin
/// at `from` and ending with the first that takes it, and whether one did.
pub open spec fn offered_in_turn(bins: Seq<BinModel>, from: int, input: PackInput, options: PackOptions) -> (
    Seq<BinModel>,
    bool,
)
    decreases bins.len() - from,
{
    if from < 0 || from >= bins.len() {
        (bins, false)
    } else {
        let (tried, taken) = offered(bins[from], input.dim, input.id, options);
        if taken {
            (bins.update(from, tried), true)
        } else {
            offered_in_turn(bins.update(from, tried), from + 1, input, options)
        }
    }
}

/// The bins after one more box was packed: into the first bin that takes
/// it, or into a new bin behind the others.
pub open spec fn packed_one(bins: Seq<BinModel>, input: PackInput, options: PackOptions) -> Seq<BinModel> {
    let (tried, taken) = offered_in_turn(bins, 0, input, options);
    if taken {
        tried
    } else {
        tried.push(offered(BinModel::fresh(initial_size(options)), input.dim, input.id, options).0)
    }
}

/// The bins after the boxes were packed one after the other, starting with
/// one empty bin.
pub open spec fn packed(inputs: Seq<PackInput>, options: PackOptions) -> Seq<BinModel>
    decreases inputs.len(),
{
    if inputs.len() == 0 {
        seq![BinModel::fresh(initial_size(options))]
    } else {
        packed_one(packed(inputs.drop_last(), options), inputs.last(), options)
    }
}

/// The numbers and unrotated sizes of all boxes in the bins, bin after bin
/// and within a bin in the order of arrival.
pub open spec fn boxes(bins: Seq<BinModel>) -> Seq<(u32, Dimension)>
    decreases bins.len(),
{
    if bins.len() == 0 {
        Seq::empty()
    } else {
        boxes(bins.drop_last()) + bins.last().contents()
    }
}

/// The boxes in the bins without their order, each as often as it is placed.
pub open spec fn placed(bins: Seq<BinModel>) -> Multiset<(u32, Dimension)> {
    boxes(bins).to_multiset()
}

/// The numbers and sizes of the boxes that were handed in, each as often as
/// it was handed in.
pub open spec fn wanted(inputs: Seq<PackInput>) -> Multiset<(u32, Dimension)> {
    inputs.map_values(|input: PackInput| (input.id, input.dim)).to_multiset()
}

/// Every box can lie inside the largest size.
pub open spec fn all_admitted(inputs: Seq<PackInput>, options: PackOptions) -> bool {
    forall|i: int| 0 <= i < inputs.len() ==> options.bin_size.admits((#[trigger] inputs[i]).dim, options.flipping)
}

/// A bin that is replaced by one with the same boxes leaves the whole as it
/// was.
pub proof fn lemma_placed_same(bins: Seq<BinModel>, at: int, bin: BinModel)
    requires
        0 <= at < bins.len(),
        bin.contents() == bins[at].contents(),
    ensures
        boxes(bins.update(at, bin)) == boxes(bins),
        placed(bins.update(at, bin)) == placed(bins),
    decreases bins.len(),
{
    let after = bins.update(at, bin);
    if at == bins.len() - 1 {
        assert(after.drop_last() =~= bins.drop_last());
    } else {
        assert(after.drop_last() =~= bins.drop_last().update(at, bin));
        lemma_placed_same(bins.drop_last(), at, bin);
    }
}

/// A bin that is replaced by one with one box more adds that box to the
/// whole.
pub proof fn lemma_placed_more(bins: Seq<BinModel>, at: int, bin: BinModel, entry: (u32, Dimension))
    requires
        0 <= at < bins.len(),
        bin.contents() == bins[at].contents().push(entry),
    ensures
        placed(bins.update(at, bin)) == placed(bins).insert(entry),
    decreases bins.len(),
{
    broadcast use vstd::seq_lib::group_to_multiset_ensures;

    let after = bins.update(at, bin);
    let head = bins.drop_last();
    if at == bins.len() - 1 {
        assert(after.drop_last() =~= head);
        assert(boxes(after) =~= boxes(bins).push(entry));
    } else {
        assert(after.drop_last() =~= head.update(at, bin));
        lemma_placed_more(head, at, bin, entry);
        vstd::seq_lib::lemma_multiset_commutative(boxes(head.update(at, bin)), bins.last().contents());
        vstd::seq_lib::lemma_multiset_commutative(boxes(head), bins.last().contents());
        assert(placed(after) =~= placed(bins).insert(entry));
    }
}

/// A bin put behind the others adds its boxes to the whole.
pub proof fn lemma_placed_push(bins: Seq<BinModel>, bin: BinModel)
    ensures
        boxes(bins.push(bin)) == boxes(bins) + bin.contents(),
        placed(bins.push(bin)) == placed(bins).add(bin.contents().to_multiset()),
{
    assert(bins.push(bin).drop_last() =~= bins);
    vstd::seq_lib::lemma_multiset_commutative(boxes(bins), bin.contents());
}

/// Packs the boxes in the order given. Each box goes to the first open bin
/// that takes it; for a box that none takes a new bin is opened behind the
/// others.
pub fn pack_sorted(rectangles: &[PackInput], options: &PackOptions) -> (bins: Vec<Bin>)
    ensures
        all_wf(bins@, *options),
        models(bins@) == packed(rectangles@, *options),
        all_admitted(rectangles@, *options) ==> placed(models(bins@)) == wanted(rectangles@),
{
    let mut bins: Vec<Bin> = Vec::new();
    bins.push(new_bin(options));
    proof {
        broadcast use vstd::seq_lib::group_to_multiset_ensures;

        let first = BinModel::fresh(initial_size(*options));
        assert(models(bins@) =~= seq![first]);
        assert(rectangles@.take(0) =~= Seq::<PackInput>::empty());
        assert(seq![first].drop_last() =~= Seq::<BinModel>::empty());
        assert(first.contents() =~= Seq::<(u32, Dimension)>::empty());
        assert(boxes(Seq::<BinModel>::empty()) =~= Seq::<(u32, Dimension)>::empty());
        assert(boxes(seq![first]) =~= Seq::<(u32, Dimension)>::empty());
        assert(placed(seq![first]) =~= Multiset::<(u32, Dimension)>::empty());
        assert(rectangles@.take(0).map_values(|input: PackInput| (input.id, input.dim)) =~= Seq::<
            (u32, Dimension),
        >::empty());
        assert(wanted(rectangles@.take(0)) =~= Multiset::<(u32, Dimension)>::empty());
    }
    let mut i: usize = 0;
    while i < rectangles.len()
        invariant
            0 <= i <= rectangles.len(),
            all_wf(bins@, *options),
            models(bins@) == packed(rectangles@.take(i as int), *options),
            all_admitted(rectangles@, *options) ==> placed(models(bins@)) == wanted(rectangles@.take(i as int)),
        decreases rectangles.len() - i,
    {
        let input = rectangles[i];
        let ghost start = models(bins@);
        let ghost entry = (input.id, input.dim);
        let mut taken = false;
        let mut j: usize = 0;
        while j < bins.len() && !taken
            invariant
                0 <= j <= bins.len(),
                bins.len() == start.len(),
                entry == (input.id, input.dim),
                all_wf(bins@, *options),
                offered_in_turn(start, 0, input, *options) == if taken {
                    (models(bins@), true)
                } else {
                    offered_in_turn(models(bins@), j as int, input, *options)
                },
                placed(models(bins@)) == if taken {
                    placed(start).insert(entry)
                } else {
                    placed(start)
                },
            decreases bins.len() - j, if taken { 0int } else { 1int },
        {
            let ghost held = models(bins@);
            let ghost others = bins@;
            taken = offer(&mut bins[j], &input.dim, input.id, options);
            proof {
                assert(held[j as int] == others[j as int].model());
                assert(models(bins@) =~= held.update(j as int, bins@[j as int].model()));
                if taken {
                    lemma_placed_more(held, j as int, bins@[j as int].model(), entry);
                } else {
                    lemma_placed_same(held, j as int, bins@[j as int].model());
                }
                assert forall|b: int| 0 <= b < bins.len() implies (#[trigger] bins@[b]).wf() && capped(
                    bins@[b].model(),
                    *options,
                ) && bins@[b].model().upright(options.flipping) by {
                    if b != j {
                        assert(bins@[b] == others[b]);
                    }
                }
            }
            j += 1;
        }
        if !taken {
            let mut bin = new_bin(options);
            let ghost tried = models(bins@);
            let fits = offer(&mut bin, &input.dim, input.id, options);
            proof {
                lemma_placed_push(tried, bin.model());
                if all_admitted(rectangles@, *options) {
                    assert(options.bin_size.admits(rectangles@[i as int].dim, options.flipping));
                    assert(fits);
                }
            }
            bins.push(bin);
            proof {
                broadcast use vstd::seq_lib::group_to_multiset_ensures;

                assert(models(bins@) =~= tried.push(bin.model()));
                if all_admitted(rectangles@, *options) {
                    assert(bin.model().contents() =~= seq![entry]);
                    assert(Seq::<(u32, Dimension)>::empty().push(entry) =~= seq![entry]);
                    assert(seq![entry].to_multiset() =~= Multiset::<(u32, Dimension)>::empty().insert(entry));
                    assert(placed(models(bins@)) =~= placed(start).insert(entry));
                }
            }
        }
        proof {
            broadcast use vstd::seq_lib::group_to_multiset_ensures;

            let upto = rectangles@.take(i as int + 1);
            assert(upto.drop_last() =~= rectangles@.take(i as int));
            assert(upto.last() == input);
            let pairs = |input: PackInput| (input.id, input.dim);
            assert(upto.map_values(pairs) =~= rectangles@.take(i as int).map_values(pairs).push(entry));
        }
        i += 1;
    }
    proof {
        assert(rectangles@.take(i as int) =~= rectangles@);
    }
    bins
}

/// What was packed by one key: the bins, and the key.
#[derive(Debug)]
pub struct PackResult {
    pub bins: Vec<Bin>,
    pub heuristics: PackHeuristic,
}

/// Why nothing was packed.
#[derive(Debug)]
pub struct PackErr(pub &'static str);

impl PackResult {
    /// This is the outcome of packing `inputs` by `key`: the bins are those
    /// that come of packing the boxes one after the other in the order of
    /// the key, all are in order, and if every box can lie inside the largest
    /// size then every box is placed, once, under its own number and in its
    /// own size up to a quarter turn.
    pub open spec fn packs(self, inputs: Seq<PackInput>, options: PackOptions, key: PackHeuristic) -> bool {
        &&& self.heuristics == key
        &&& all_wf(self.bins@, options)
        &&& models(self.bins@) == packed(key.sorted(inputs), options)
        &&& all_admitted(inputs, options) ==> placed(models(self.bins@)) == wanted(inputs)
    }
}

/// The boxes with their places in the caller's list as numbers.
pub open spec fn numbered(rectangles: Seq<Dimension>) -> Seq<PackInput> {
    Seq::new(rectangles.len(), |i: int| PackInput { dim: rectangles[i], id: i as u32 })
}

/// Putting a box in among sorted ones adds the number and size of that box
/// to those of the others.
pub proof fn lemma_insert_ranked_wanted(key: PackHeuristic, sorted: Seq<PackInput>, x: PackInput)
    ensures
        wanted(key.insert_ranked(sorted, x)) == wanted(sorted).insert((x.id, x.dim)),
    decreases sorted.len(),
{
    broadcast use vstd::seq_lib::group_to_multiset_ensures;

    let pairs = |input: PackInput| (input.id, input.dim);
    if sorted.len() > 0 && key.outranks(x.dim, sorted.last().dim) {
        let head = sorted.drop_last();
        lemma_insert_ranked_wanted(key, head, x);
        assert(head.push(sorted.last()) =~= sorted);
        assert(sorted.map_values(pairs) =~= head.map_values(pairs).push(pairs(sorted.last())));
        assert(key.insert_ranked(sorted, x).map_values(pairs) =~= key.insert_ranked(head, x).map_values(pairs).push(
            pairs(sorted.last()),
        ));
        assert(wanted(key.insert_ranked(sorted, x)) =~= wanted(sorted).insert((x.id, x.dim)));
    } else {
        assert(sorted.push(x).map_values(pairs) =~= sorted.map_values(pairs).push(pairs(x)));
    }
}

/// Sorting changes neither which boxes are wanted nor whether all of them
/// can lie inside the largest size.
pub proof fn lemma_sorted_wanted(key: PackHeuristic, inputs: Seq<PackInput>, options: PackOptions)
    ensures
        wanted(key.sorted(inputs)) == wanted(inputs),
        all_admitted(inputs, options) ==> all_admitted(key.sorted(inputs), options),
    decreases inputs.len(),
{
    broadcast use vstd::seq_lib::group_to_multiset_ensures;

    let pairs = |input: PackInput| (input.id, input.dim);
    if inputs.len() > 0 {
        let head = inputs.drop_last();
        lemma_sorted_wanted(key, head, options);
        lemma_insert_ranked_wanted(key, key.sorted(head), inputs.last());
        assert(head.push(inputs.last()) =~= inputs);
        assert(inputs.map_values(pairs) =~= head.map_values(pairs).push(pairs(inputs.last())));
    }
    lemma_sorted_permutes(key, inputs);
    let sorted = key.sorted(inputs);
    if all_admitted(inputs, options) {
        assert forall|i: int| 0 <= i < sorted.len() implies options.bin_size.admits(
            (#[trigger] sorted[i]).dim,
            options.flipping,
        ) by {
            assert(sorted.contains(sorted[i]));
            assert(sorted.to_multiset().count(sorted[i]) > 0);
            assert(inputs.contains(sorted[i]));
        }
    }
}

/// Packs the boxes by one key.
pub fn pack_with(inputs: &[PackInput], options: &PackOptions, key: PackHeuristic) -> (result: PackResult)
    ensures
        result.packs(inputs@, *options, key),
{
    let sorted = key.sort(inputs);
    proof {
        lemma_sorted_wanted(key, inputs@, *options);
    }
    let bins = pack_sorted(sorted.as_slice(), options);
    PackResult { heuristics: key, bins }
}

/// Packs the boxes by each of the keys, on as many threads as rayon sees
/// fit. The body hands the keys to rayon's `par_iter`, maps each with
/// `ParallelIterator::map` through [`pack_with`], and gathers the outcomes
/// with `ParallelIterator::collect`. The contract takes from rayon that a
/// vector collected from a slice holds one item for each item of the slice,
/// in the order of the slice, and that each is what the mapped function
/// returned for that item.
#[verifier::external_body]
fn pack_each(keys: &Vec<PackHeuristic>, inputs: &Vec<PackInput>, options: &PackOptions) -> (results: Vec<PackResult>)
    ensures
        results@.len() == keys@.len(),
        forall|i: int| 0 <= i < results@.len() ==> (#[trigger] results@[i]).packs(inputs@, *options, keys@[i]),
{
    keys.par_iter().map(|key| pack_with(inputs.as_slice(), options, *key)).collect()
}

/// Numbers the boxes by their place in the list.
pub fn number(rectangles: &[Dimension]) -> (inputs: Vec<PackInput>)
    ensures
        inputs@ == numbered(rectangles@),
{
    let mut inputs: Vec<PackInput> = Vec::with_capacity(rectangles.len());
    let mut idx: usize = 0;
    while idx < rectangles.len()
        invariant
            0 <= idx <= rectangles.len(),
            inputs@ == numbered(rectangles@.take(idx as int)),
        decreases rectangles.len() - idx,
    {
        let id = #[verifier::truncate] (idx as u32);
        inputs.push(PackInput { id, dim: rectangles[idx] });
        proof {
            assert(inputs@ =~= numbered(rectangles@.take(idx as int + 1)));
        }
        idx += 1;
    }
    proof {
        assert(rectangles@.take(idx as int) =~= rectangles@);
    }
    inputs
}

/// Whether every box can lie inside the largest size.
pub fn all_fit(rectangles: &[Dimension], options: &PackOptions) -> (ok: bool)
    ensures
        ok == all_admitted(numbered(rectangles@), *options),
{
    let mut i: usize = 0;
    while i < rectangles.len()
        invariant
            0 <= i <= rectangles.len(),
            forall|k: int| 0 <= k < i ==> options.bin_size.admits(#[trigger] rectangles@[k], options.flipping),
        decreases rectangles.len() - i,
    {
        if !options.bin_size.fits(&rectangles[i]).is_allowed(options.flipping) {
            proof {
                assert(numbered(rectangles@)[i as int].dim == rectangles@[i as int]);
            }
            return false;
        }
        i += 1;
    }
    proof {
        assert forall|k: int| 0 <= k < numbered(rectangles@).len() implies options.bin_size.admits(
            (#[trigger] numbered(rectangles@)[k]).dim,
            options.flipping,
        ) by {
            assert(options.bin_size.admits(rectangles@[k], options.flipping));
        }
    }
    true
}

/// Packs the boxes once for each key of the options and returns one outcome
/// for each, in the order in which the set lists its keys. Fails, before any
/// box is packed, if there is no key or if some box cannot lie inside the
/// largest size.
pub fn pack(rectangles: &[Dimension], options: &PackOptions) -> (result: Result<Vec<PackResult>, PackErr>)
    ensures
        result is Err <==> options.pack_heuristics.members().len() == 0 || !all_admitted(
            numbered(rectangles@),
            *options,
        ),
        match result {
            Ok(results) => {
                &&& results@.len() == options.pack_heuristics.members().len()
                &&& forall|i: int|
                    0 <= i < results@.len() ==> (#[trigger] results@[i]).packs(
                        numbered(rectangles@),
                        *options,
                        options.pack_heuristics.members()[i],
                    )
            },
            Err(e) => e.0@ == if options.pack_heuristics.members().len() == 0 {
                "No heuristics supplied"@
            } else {
                "Some pieces do not fit bin size"@
            },
        },
{
    if options.pack_heuristics.is_empty() {
        return Err(PackErr("No heuristics supplied"));
    }
    if !all_fit(rectangles, options) {
        return Err(PackErr("Some pieces do not fit bin size"));
    }
    let inputs = number(rectangles);
    let keys = options.pack_heuristics.to_vec();
    let results = pack_each(&keys, &inputs, options);
    Ok(results)
}

} // verus!
