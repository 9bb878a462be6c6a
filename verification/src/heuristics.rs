//! The orders in which boxes are offered to the bins: seven keys, each
//! sorted from the largest down.

use std::cmp::Ordering;
use vstd::prelude::*;
use crate::geometry::Dimension;

verus! {

/// A box to be packed, with the number its caller knows it by.
#[derive(Clone, Copy, PartialEq, Eq, Debug, Structural)]
pub struct PackInput {
    pub dim: Dimension,
    pub id: u32,
}

/// The key by which boxes are ordered before packing.
#[derive(Clone, Copy, PartialEq, Eq, Debug, Hash, Structural)]
pub enum PackHeuristic {
    Area,
    Perimeter,
    Side,
    Width,
    Height,
    SquarenessArea,
    SquarenessPerimeter,
}

/// The shorter side of a box.
pub open spec fn shorter(d: Dimension) -> int {
    if d.w < d.h {
        d.w as int
    } else {
        d.h as int
    }
}

/// The longer side of a box.
pub open spec fn longer(d: Dimension) -> int {
    if d.w < d.h {
        d.h as int
    } else {
        d.w as int
    }
}

/// Largest side of a box.
pub open spec fn side_top() -> int {
    0xFFFF_FFFF
}

/// Largest numerator of a key: the cube of the largest side.
pub open spec fn key_top() -> int {
    side_top() * side_top() * side_top()
}

impl PackHeuristic {
    /// The key of a box as a fraction, numerator first. The squareness of a
    /// box is its shorter side over its longer one; it weighs the area or the
    /// perimeter. A denominator of zero says that the key is undefined, which
    /// is the case only for the squareness of the box without extent.
    pub open spec fn key(self, d: Dimension) -> (int, int) {
        match self {
            PackHeuristic::Area => (d.w * d.h, 1),
            PackHeuristic::Perimeter => (d.w + d.h, 1),
            PackHeuristic::Side => (longer(d), 1),
            PackHeuristic::Width => (d.w as int, 1),
            PackHeuristic::Height => (d.h as int, 1),
            PackHeuristic::SquarenessArea => (shorter(d) * (d.w * d.h), longer(d)),
            PackHeuristic::SquarenessPerimeter => (shorter(d) * (d.w + d.h), longer(d)),
        }
    }

    /// The key of `a` is strictly larger than that of `b`. An undefined key
    /// is neither larger nor smaller than any other.
    pub open spec fn outranks(self, a: Dimension, b: Dimension) -> bool {
        let (na, da) = self.key(a);
        let (nb, db) = self.key(b);
        da > 0 && db > 0 && na * db > nb * da
    }

    /// `sorted` with `x` put in behind every box that `x` does not outrank.
    pub open spec fn insert_ranked(self, sorted: Seq<PackInput>, x: PackInput) -> Seq<PackInput>
        decreases sorted.len(),
    {
        if sorted.len() > 0 && self.outranks(x.dim, sorted.last().dim) {
            self.insert_ranked(sorted.drop_last(), x).push(sorted.last())
        } else {
            sorted.push(x)
        }
    }

    /// The boxes ordered by key from the largest down; boxes of equal key
    /// keep the order in which they came.
    pub open spec fn sorted(self, inputs: Seq<PackInput>) -> Seq<PackInput>
        decreases inputs.len(),
    {
        if inputs.len() == 0 {
            inputs
        } else {
            self.insert_ranked(self.sorted(inputs.drop_last()), inputs.last())
        }
    }

    /// The name of the key as text.
    pub open spec fn label(self) -> Seq<char> {
        match self {
            PackHeuristic::Area => "area"@,
            PackHeuristic::Perimeter => "perimeter"@,
            PackHeuristic::Side => "side"@,
            PackHeuristic::Width => "width"@,
            PackHeuristic::Height => "height"@,
            PackHeuristic::SquarenessArea => "squareness_area"@,
            PackHeuristic::SquarenessPerimeter => "squareness_perimeter"@,
        }
    }

    /// All seven keys.
    pub open spec fn every() -> Seq<PackHeuristic> {
        seq![
            PackHeuristic::Area,
            PackHeuristic::Perimeter,
            PackHeuristic::Side,
            PackHeuristic::Width,
            PackHeuristic::Height,
            PackHeuristic::SquarenessArea,
            PackHeuristic::SquarenessPerimeter,
        ]
    }

    /// All seven keys, in the order in which they are listed.
    pub fn all() -> (keys: Vec<PackHeuristic>)
        ensures
            keys@ == PackHeuristic::every(),
    {
        let mut keys: Vec<PackHeuristic> = Vec::with_capacity(7);
        keys.push(PackHeuristic::Area);
        keys.push(PackHeuristic::Perimeter);
        keys.push(PackHeuristic::Side);
        keys.push(PackHeuristic::Width);
        keys.push(PackHeuristic::Height);
        keys.push(PackHeuristic::SquarenessArea);
        keys.push(PackHeuristic::SquarenessPerimeter);
        assert(keys@ =~= PackHeuristic::every());
        keys
    }

    /// The name of the key.
    pub fn name(&self) -> (name: &'static str)
        ensures
            name@ == self.label(),
    {
        match *self {
            PackHeuristic::Area => "area",
            PackHeuristic::Perimeter => "perimeter",
            PackHeuristic::Side => "side",
            PackHeuristic::Width => "width",
            PackHeuristic::Height => "height",
            PackHeuristic::SquarenessArea => "squareness_area",
            PackHeuristic::SquarenessPerimeter => "squareness_perimeter",
        }
    }

    /// Numerator and denominator of the key of a box.
    fn key_of(&self, d: &Dimension) -> (key: (u128, u128))
        ensures
            key.0 == self.key(*d).0,
            key.1 == self.key(*d).1,
            key.0 <= key_top(),
            key.1 <= side_top(),
    {
        let w = d.w as u128;
        let h = d.h as u128;
        let short = if d.w < d.h { w } else { h };
        let long = if d.w < d.h { h } else { w };
        proof {
            assert(w * h <= 18446744065119617025) by (nonlinear_arith)
                requires
                    0 <= w <= 4294967295,
                    0 <= h <= 4294967295,
            ;
            assert(short * (w * h) <= 79228162458924105385300197375) by (nonlinear_arith)
                requires
                    0 <= short <= 4294967295,
                    0 <= w * h <= 18446744065119617025,
            ;
            assert(short * (w + h) <= 79228162458924105385300197375) by (nonlinear_arith)
                requires
                    0 <= short <= 4294967295,
                    0 <= w + h <= 8589934590,
            ;
        }
        match *self {
            PackHeuristic::Area => (w * h, 1),
            PackHeuristic::Perimeter => (w + h, 1),
            PackHeuristic::Side => (long, 1),
            PackHeuristic::Width => (w, 1),
            PackHeuristic::Height => (h, 1),
            PackHeuristic::SquarenessArea => (short * (w * h), long),
            PackHeuristic::SquarenessPerimeter => (short * (w + h), long),
        }
    }

    /// Whether the key of `a` is strictly larger than that of `b`.
    pub fn precedes(&self, a: &Dimension, b: &Dimension) -> (before: bool)
        ensures
            before == self.outranks(*a, *b),
    {
        let (na, da) = self.key_of(a);
        let (nb, db) = self.key_of(b);
        proof {
            assert(na * db <= 340282366604025813516997721482669850625) by (nonlinear_arith)
                requires
                    0 <= na <= 79228162458924105385300197375,
                    0 <= db <= 4294967295,
            ;
            assert(nb * da <= 340282366604025813516997721482669850625) by (nonlinear_arith)
                requires
                    0 <= nb <= 79228162458924105385300197375,
                    0 <= da <= 4294967295,
            ;
        }
        da > 0 && db > 0 && na * db > nb * da
    }

    /// Orders two boxes for a sort from the largest key down: `Less` if the
    /// first has the larger key, `Greater` if the second has, `Equal` if
    /// neither has.
    pub fn compare(&self, l: &PackInput, r: &PackInput) -> (order: Ordering)
        ensures
            order == Ordering::Less <==> self.outranks(l.dim, r.dim),
            order == Ordering::Greater <==> self.outranks(r.dim, l.dim),
    {
        if self.precedes(&l.dim, &r.dim) {
            Ordering::Less
        } else if self.precedes(&r.dim, &l.dim) {
            Ordering::Greater
        } else {
            Ordering::Equal
        }
    }

    /// The boxes in the order in which they are to be packed.
    pub fn sort(&self, inputs: &[PackInput]) -> (ordered: Vec<PackInput>)
        ensures
            ordered@ == self.sorted(inputs@),
    {
        let mut ordered: Vec<PackInput> = Vec::with_capacity(inputs.len());
        let mut i: usize = 0;
        while i < inputs.len()
            invariant
                0 <= i <= inputs.len(),
                ordered@ == self.sorted(inputs@.take(i as int)),
            decreases inputs.len() - i,
        {
            let x = inputs[i];
            let mut j: usize = ordered.len();
            proof {
                assert(ordered@.take(j as int) =~= ordered@);
                assert(ordered@.skip(j as int) =~= Seq::<PackInput>::empty());
                assert(self.insert_ranked(ordered@, x) + Seq::<PackInput>::empty() =~= self.insert_ranked(
                    ordered@,
                    x,
                ));
            }
            while j > 0 && self.precedes(&x.dim, &ordered[j - 1].dim)
                invariant
                    0 <= j <= ordered.len(),
                    self.insert_ranked(ordered@, x) == self.insert_ranked(ordered@.take(j as int), x)
                        + ordered@.skip(j as int),
                decreases j,
            {
                proof {
                    let head = ordered@.take(j as int);
                    assert(head.last() == ordered@[j - 1]);
                    assert(head.drop_last() =~= ordered@.take(j - 1));
                    assert(self.insert_ranked(head, x) + ordered@.skip(j as int) =~= self.insert_ranked(
                        ordered@.take(j - 1),
                        x,
                    ) + ordered@.skip(j - 1));
                }
                j -= 1;
            }
            proof {
                let head = ordered@.take(j as int);
                assert(self.insert_ranked(head, x) == head.push(x));
                assert(head.push(x) + ordered@.skip(j as int) =~= ordered@.insert(j as int, x));
                let upto = inputs@.take(i as int + 1);
                assert(upto.drop_last() =~= inputs@.take(i as int));
                assert(upto.last() == x);
            }
            ordered.insert(j, x);
            i += 1;
        }
        assert(inputs@.take(i as int) =~= inputs@);
        ordered
    }
}

/// Putting a box in among sorted ones adds that box and no other.
pub proof fn lemma_insert_ranked_permutes(key: PackHeuristic, sorted: Seq<PackInput>, x: PackInput)
    ensures
        key.insert_ranked(sorted, x).len() == sorted.len() + 1,
        key.insert_ranked(sorted, x).to_multiset() == sorted.to_multiset().insert(x),
    decreases sorted.len(),
{
    broadcast use vstd::seq_lib::group_to_multiset_ensures;

    if sorted.len() > 0 && key.outranks(x.dim, sorted.last().dim) {
        lemma_insert_ranked_permutes(key, sorted.drop_last(), x);
        assert(sorted.drop_last().push(sorted.last()) =~= sorted);
        assert(key.insert_ranked(sorted, x).to_multiset() =~= sorted.to_multiset().insert(x));
    }
}

/// Sorting keeps every box, each as often as it came.
pub proof fn lemma_sorted_permutes(key: PackHeuristic, inputs: Seq<PackInput>)
    ensures
        key.sorted(inputs).len() == inputs.len(),
        key.sorted(inputs).to_multiset() == inputs.to_multiset(),
    decreases inputs.len(),
{
    broadcast use vstd::seq_lib::group_to_multiset_ensures;

    if inputs.len() > 0 {
        lemma_sorted_permutes(key, inputs.drop_last());
        lemma_insert_ranked_permutes(key, key.sorted(inputs.drop_last()), inputs.last());
        assert(inputs.drop_last().push(inputs.last()) =~= inputs);
    }
}

/// No box outranks a box that stands before it.
pub open spec fn descending(key: PackHeuristic, boxes: Seq<PackInput>) -> bool {
    forall|i: int, j: int| 0 <= i < j < boxes.len() ==> !key.outranks(#[trigger] boxes[j].dim, #[trigger] boxes[i].dim)
}

/// The key of every box is defined.
pub open spec fn all_defined(key: PackHeuristic, boxes: Seq<PackInput>) -> bool {
    forall|i: int| 0 <= i < boxes.len() ==> key.key(#[trigger] boxes[i].dim).1 > 0
}

/// Among boxes with defined keys, a box that does not outrank a second,
/// which does not outrank a third, does not outrank the third.
pub proof fn lemma_rank_transitive(key: PackHeuristic, a: Dimension, b: Dimension, c: Dimension)
    requires
        key.key(a).1 > 0,
        key.key(b).1 > 0,
        key.key(c).1 > 0,
        !key.outranks(a, b),
        !key.outranks(b, c),
    ensures
        !key.outranks(a, c),
{
    let (na, da) = key.key(a);
    let (nb, db) = key.key(b);
    let (nc, dc) = key.key(c);
    assert(na * dc <= nc * da) by (nonlinear_arith)
        requires
            da > 0,
            db > 0,
            dc > 0,
            na * db <= nb * da,
            nb * dc <= nc * db,
    {
        assert((na * db) * dc <= (nb * da) * dc);
        assert((nb * dc) * da <= (nc * db) * da);
        assert((na * dc) * db <= (nc * da) * db);
    }
}

/// Putting a box in among boxes in descending order leaves them in
/// descending order, and brings in no box but that one.
pub proof fn lemma_insert_ranked_descends(key: PackHeuristic, sorted: Seq<PackInput>, x: PackInput)
    requires
        descending(key, sorted),
        all_defined(key, sorted),
        key.key(x.dim).1 > 0,
    ensures
        descending(key, key.insert_ranked(sorted, x)),
        all_defined(key, key.insert_ranked(sorted, x)),
        forall|i: int|
            0 <= i < key.insert_ranked(sorted, x).len() ==> #[trigger] key.insert_ranked(sorted, x)[i] == x
                || sorted.contains(key.insert_ranked(sorted, x)[i]),
    decreases sorted.len(),
{
    let after = key.insert_ranked(sorted, x);
    if sorted.len() > 0 && key.outranks(x.dim, sorted.last().dim) {
        let head = sorted.drop_last();
        let last = sorted.last();
        lemma_insert_ranked_descends(key, head, x);
        let mid = key.insert_ranked(head, x);
        assert forall|i: int| 0 <= i < after.len() implies #[trigger] after[i] == x || sorted.contains(
            after[i],
        ) by {
            if i < mid.len() {
                if mid[i] != x {
                    let k = choose|k: int| 0 <= k < head.len() && head[k] == mid[i];
                    assert(sorted[k] == mid[i]);
                }
            } else {
                assert(sorted[sorted.len() - 1] == after[i]);
            }
        }
        assert forall|i: int, j: int| 0 <= i < j < after.len() implies !key.outranks(
            #[trigger] after[j].dim,
            #[trigger] after[i].dim,
        ) by {
            if j < mid.len() {
                assert(after[i] == mid[i] && after[j] == mid[j]);
            } else {
                assert(after[j] == last);
                assert(after[i] == mid[i]);
                if mid[i] != x {
                    let k = choose|k: int| 0 <= k < head.len() && head[k] == mid[i];
                    assert(sorted[k] == mid[i]);
                    assert(!key.outranks(sorted[sorted.len() - 1].dim, sorted[k].dim));
                }
            }
        }
    } else {
        assert forall|i: int, j: int| 0 <= i < j < after.len() implies !key.outranks(
            #[trigger] after[j].dim,
            #[trigger] after[i].dim,
        ) by {
            if j == sorted.len() {
                let last = sorted.last();
                if i < sorted.len() - 1 {
                    assert(!key.outranks(sorted[sorted.len() - 1].dim, sorted[i].dim));
                    lemma_rank_transitive(key, x.dim, last.dim, sorted[i].dim);
                }
            }
        }
        assert forall|i: int| 0 <= i < after.len() implies #[trigger] after[i] == x || sorted.contains(
            after[i],
        ) by {
            if i < sorted.len() {
                assert(sorted[i] == after[i]);
            }
        }
    }
}

/// Sorted boxes stand in descending order of their keys, as long as the key
/// of each is defined.
pub proof fn lemma_sorted_descends(key: PackHeuristic, inputs: Seq<PackInput>)
    requires
        all_defined(key, inputs),
    ensures
        descending(key, key.sorted(inputs)),
        all_defined(key, key.sorted(inputs)),
    decreases inputs.len(),
{
    if inputs.len() > 0 {
        let head = inputs.drop_last();
        assert forall|i: int| 0 <= i < head.len() implies key.key(#[trigger] head[i].dim).1 > 0 by {
            assert(head[i] == inputs[i]);
        }
        lemma_sorted_descends(key, head);
        lemma_insert_ranked_descends(key, key.sorted(head), inputs.last());
    }
}

/// The five keys that are whole numbers are defined for every box; the two
/// that weigh by squareness are defined for every box but the one that has
/// no extent at all.
pub proof fn lemma_key_defined(key: PackHeuristic, d: Dimension)
    ensures
        key.key(d).1 > 0 <==> !((key == PackHeuristic::SquarenessArea || key == PackHeuristic::SquarenessPerimeter)
            && d.w == 0 && d.h == 0),
{
}

} // verus!
