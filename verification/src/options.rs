//! What a caller can choose: the size of the bins, whether boxes may be
//! turned, how bins grow, and the keys to try.

use vstd::prelude::*;
use crate::geometry::Dimension;
use crate::heuristics::PackHeuristic;

verus! {

/// A set of keys, one flag for each.
#[derive(Clone, Copy, PartialEq, Eq, Debug, Structural)]
pub struct HeuristicSet {
    pub area: bool,
    pub perimeter: bool,
    pub side: bool,
    pub width: bool,
    pub height: bool,
    pub squareness_area: bool,
    pub squareness_perimeter: bool,
}

/// The sequence that holds `key` if `present`, and nothing else.
pub open spec fn only_if(present: bool, key: PackHeuristic) -> Seq<PackHeuristic> {
    if present {
        seq![key]
    } else {
        Seq::empty()
    }
}

impl View for HeuristicSet {
    type V = Set<PackHeuristic>;

    open spec fn view(&self) -> Set<PackHeuristic> {
        Set::new(|key: PackHeuristic| self.has(key))
    }
}

impl HeuristicSet {
    /// The key is in the set.
    pub open spec fn has(self, key: PackHeuristic) -> bool {
        match key {
            PackHeuristic::Area => self.area,
            PackHeuristic::Perimeter => self.perimeter,
            PackHeuristic::Side => self.side,
            PackHeuristic::Width => self.width,
            PackHeuristic::Height => self.height,
            PackHeuristic::SquarenessArea => self.squareness_area,
            PackHeuristic::SquarenessPerimeter => self.squareness_perimeter,
        }
    }

    /// The keys of the set, each once, in the order in which
    /// [`PackHeuristic`] lists them.
    pub open spec fn members(self) -> Seq<PackHeuristic> {
        only_if(self.area, PackHeuristic::Area) + only_if(self.perimeter, PackHeuristic::Perimeter) + only_if(
            self.side,
            PackHeuristic::Side,
        ) + only_if(self.width, PackHeuristic::Width) + only_if(self.height, PackHeuristic::Height) + only_if(
            self.squareness_area,
            PackHeuristic::SquarenessArea,
        ) + only_if(self.squareness_perimeter, PackHeuristic::SquarenessPerimeter)
    }

    /// The set without any key.
    pub fn none() -> (set: HeuristicSet)
        ensures
            forall|key: PackHeuristic| !set.has(key),
            set.members() == Seq::<PackHeuristic>::empty(),
    {
        let set = HeuristicSet {
            area: false,
            perimeter: false,
            side: false,
            width: false,
            height: false,
            squareness_area: false,
            squareness_perimeter: false,
        };
        assert(set.members() =~= Seq::<PackHeuristic>::empty());
        set
    }

    /// The set of all seven keys.
    pub fn all() -> (set: HeuristicSet)
        ensures
            forall|key: PackHeuristic| set.has(key),
            set.members() == PackHeuristic::every(),
    {
        let set = HeuristicSet {
            area: true,
            perimeter: true,
            side: true,
            width: true,
            height: true,
            squareness_area: true,
            squareness_perimeter: true,
        };
        assert(set.members() =~= PackHeuristic::every());
        set
    }

    /// The set with `key` added.
    pub fn with(self, key: PackHeuristic) -> (set: HeuristicSet)
        ensures
            forall|other: PackHeuristic| set.has(other) == (other == key || self.has(other)),
    {
        let mut set = self;
        match key {
            PackHeuristic::Area => set.area = true,
            PackHeuristic::Perimeter => set.perimeter = true,
            PackHeuristic::Side => set.side = true,
            PackHeuristic::Width => set.width = true,
            PackHeuristic::Height => set.height = true,
            PackHeuristic::SquarenessArea => set.squareness_area = true,
            PackHeuristic::SquarenessPerimeter => set.squareness_perimeter = true,
        }
        set
    }

    /// The set of the keys in the list.
    pub fn from_keys(keys: &[PackHeuristic]) -> (set: HeuristicSet)
        ensures
            forall|key: PackHeuristic| set.has(key) <==> keys@.contains(key),
    {
        let mut set = HeuristicSet::none();
        let mut i: usize = 0;
        while i < keys.len()
            invariant
                0 <= i <= keys.len(),
                forall|key: PackHeuristic| set.has(key) <==> keys@.take(i as int).contains(key),
            decreases keys.len() - i,
        {
            let ghost before = set;
            set = set.with(keys[i]);
            proof {
                let head = keys@.take(i as int);
                let upto = keys@.take(i as int + 1);
                assert(upto =~= head.push(keys@[i as int]));
                assert forall|key: PackHeuristic| set.has(key) <==> upto.contains(key) by {
                    if head.contains(key) {
                        let k = choose|k: int| 0 <= k < head.len() && head[k] == key;
                        assert(upto[k] == key);
                    }
                    if key == keys@[i as int] {
                        assert(upto[i as int] == key);
                    }
                    if upto.contains(key) {
                        let k = choose|k: int| 0 <= k < upto.len() && upto[k] == key;
                        if k < i {
                            assert(head[k] == key);
                        }
                    }
                }
            }
            i += 1;
        }
        proof {
            assert(keys@.take(i as int) =~= keys@);
        }
        set
    }

    /// Whether the key is in the set.
    pub fn contains(&self, key: PackHeuristic) -> (found: bool)
        ensures
            found == self.has(key),
    {
        match key {
            PackHeuristic::Area => self.area,
            PackHeuristic::Perimeter => self.perimeter,
            PackHeuristic::Side => self.side,
            PackHeuristic::Width => self.width,
            PackHeuristic::Height => self.height,
            PackHeuristic::SquarenessArea => self.squareness_area,
            PackHeuristic::SquarenessPerimeter => self.squareness_perimeter,
        }
    }

    /// Whether the set holds no key.
    pub fn is_empty(&self) -> (empty: bool)
        ensures
            empty == (self.members().len() == 0),
            empty == (forall|key: PackHeuristic| !self.has(key)),
    {
        let empty = !(self.area || self.perimeter || self.side || self.width || self.height
            || self.squareness_area || self.squareness_perimeter);
        proof {
            if !empty {
                let key = if self.area {
                    PackHeuristic::Area
                } else if self.perimeter {
                    PackHeuristic::Perimeter
                } else if self.side {
                    PackHeuristic::Side
                } else if self.width {
                    PackHeuristic::Width
                } else if self.height {
                    PackHeuristic::Height
                } else if self.squareness_area {
                    PackHeuristic::SquarenessArea
                } else {
                    PackHeuristic::SquarenessPerimeter
                };
                assert(self.has(key));
            }
        }
        empty
    }

    /// The keys of the set as a list.
    pub fn to_vec(&self) -> (keys: Vec<PackHeuristic>)
        ensures
            keys@ == self.members(),
    {
        let mut keys: Vec<PackHeuristic> = Vec::with_capacity(7);
        if self.area {
            keys.push(PackHeuristic::Area);
        }
        let ghost s1 = only_if(self.area, PackHeuristic::Area);
        assert(keys@ =~= s1);
        if self.perimeter {
            keys.push(PackHeuristic::Perimeter);
        }
        let ghost s2 = s1 + only_if(self.perimeter, PackHeuristic::Perimeter);
        assert(keys@ =~= s2);
        if self.side {
            keys.push(PackHeuristic::Side);
        }
        let ghost s3 = s2 + only_if(self.side, PackHeuristic::Side);
        assert(keys@ =~= s3);
        if self.width {
            keys.push(PackHeuristic::Width);
        }
        let ghost s4 = s3 + only_if(self.width, PackHeuristic::Width);
        assert(keys@ =~= s4);
        if self.height {
            keys.push(PackHeuristic::Height);
        }
        let ghost s5 = s4 + only_if(self.height, PackHeuristic::Height);
        assert(keys@ =~= s5);
        if self.squareness_area {
            keys.push(PackHeuristic::SquarenessArea);
        }
        let ghost s6 = s5 + only_if(self.squareness_area, PackHeuristic::SquarenessArea);
        assert(keys@ =~= s6);
        if self.squareness_perimeter {
            keys.push(PackHeuristic::SquarenessPerimeter);
        }
        assert(keys@ =~= s6 + only_if(self.squareness_perimeter, PackHeuristic::SquarenessPerimeter));
        keys
    }
}

/// A list without repeats stays one when a key that it lacks is put, or not
/// put, behind it.
proof fn lemma_only_if_appended(list: Seq<PackHeuristic>, present: bool, key: PackHeuristic)
    requires
        list.no_duplicates(),
        !list.contains(key),
    ensures
        (list + only_if(present, key)).no_duplicates(),
        (list + only_if(present, key)).len() == list.len() + if present { 1int } else { 0 },
        forall|other: PackHeuristic|
            #[trigger] (list + only_if(present, key)).contains(other) <==> (list.contains(other) || (present
                && other == key)),
{
    let longer = list + only_if(present, key);
    if present {
        assert(longer[list.len() as int] == key);
        assert forall|other: PackHeuristic| list.contains(other) implies longer.contains(other) by {
            let i = choose|i: int| 0 <= i < list.len() && list[i] == other;
            assert(longer[i] == other);
        }
        assert forall|other: PackHeuristic| longer.contains(other) implies list.contains(other) || other
            == key by {
            let i = choose|i: int| 0 <= i < longer.len() && longer[i] == other;
            if i < list.len() {
                assert(list[i] == other);
            }
        }
        assert forall|i: int, j: int| 0 <= i < longer.len() && 0 <= j < longer.len() && i != j implies longer[i]
            != longer[j] by {
            if i < list.len() {
                assert(list[i] == longer[i]);
            }
            if j < list.len() {
                assert(list[j] == longer[j]);
            }
        }
    } else {
        assert(longer =~= list);
    }
}

/// The list of members holds exactly the keys of the set, and none of them
/// twice.
pub proof fn lemma_members(set: HeuristicSet)
    ensures
        forall|key: PackHeuristic| set.members().contains(key) <==> set.has(key),
        set.members().no_duplicates(),
        set.members().to_set() == set@,
        set.members().len() <= 7,
{
    let s0 = Seq::<PackHeuristic>::empty();
    let s1 = s0 + only_if(set.area, PackHeuristic::Area);
    let s2 = s1 + only_if(set.perimeter, PackHeuristic::Perimeter);
    let s3 = s2 + only_if(set.side, PackHeuristic::Side);
    let s4 = s3 + only_if(set.width, PackHeuristic::Width);
    let s5 = s4 + only_if(set.height, PackHeuristic::Height);
    let s6 = s5 + only_if(set.squareness_area, PackHeuristic::SquarenessArea);
    let s7 = s6 + only_if(set.squareness_perimeter, PackHeuristic::SquarenessPerimeter);
    assert(s1 =~= only_if(set.area, PackHeuristic::Area));
    assert(s7 == set.members());
    lemma_only_if_appended(s0, set.area, PackHeuristic::Area);
    lemma_only_if_appended(s1, set.perimeter, PackHeuristic::Perimeter);
    lemma_only_if_appended(s2, set.side, PackHeuristic::Side);
    lemma_only_if_appended(s3, set.width, PackHeuristic::Width);
    lemma_only_if_appended(s4, set.height, PackHeuristic::Height);
    lemma_only_if_appended(s5, set.squareness_area, PackHeuristic::SquarenessArea);
    lemma_only_if_appended(s6, set.squareness_perimeter, PackHeuristic::SquarenessPerimeter);
    assert forall|key: PackHeuristic| s7.contains(key) <==> set.has(key) by {
        assert(s7.contains(key) <==> s6.contains(key) || (set.squareness_perimeter && key
            == PackHeuristic::SquarenessPerimeter));
        assert(s6.contains(key) <==> s5.contains(key) || (set.squareness_area && key
            == PackHeuristic::SquarenessArea));
        assert(s5.contains(key) <==> s4.contains(key) || (set.height && key == PackHeuristic::Height));
        assert(s4.contains(key) <==> s3.contains(key) || (set.width && key == PackHeuristic::Width));
        assert(s3.contains(key) <==> s2.contains(key) || (set.side && key == PackHeuristic::Side));
        assert(s2.contains(key) <==> s1.contains(key) || (set.perimeter && key == PackHeuristic::Perimeter));
        assert(s1.contains(key) <==> s0.contains(key) || (set.area && key == PackHeuristic::Area));
    }
    assert(s7.to_set() =~= set@);
}

/// The settings of a packing run.
#[derive(Clone, Copy, PartialEq, Eq, Debug, Structural)]
pub struct PackOptions {
    /// Largest size of a bin.
    pub bin_size: Dimension,
    /// In how many steps a bin grows to its largest size; with zero steps
    /// every bin has that size from the start.
    pub atlas_compact_steps: u8,
    /// Whether boxes may be turned by a quarter turn.
    pub flipping: bool,
    /// A hint for whoever draws the bins; packing does not read it.
    pub trim: bool,
    /// The keys to pack by.
    pub pack_heuristics: HeuristicSet,
}

impl PackOptions {
    /// The options that a command line asks for: square bins of side `size`
    /// if that is given, else bins of `width` by `height`; every key.
    pub fn from_flags(size: Option<u32>, width: u32, height: u32, flipping: bool, trim: bool, steps: u8) -> (options:
        PackOptions)
        ensures
            options.bin_size == match size {
                Some(side) => Dimension { w: side, h: side },
                None => Dimension { w: width, h: height },
            },
            options.flipping == flipping,
            options.trim == trim,
            options.atlas_compact_steps == steps,
            options.pack_heuristics.members() == PackHeuristic::every(),
    {
        let bin_size = if let Some(side) = size {
            Dimension { w: side, h: side }
        } else {
            Dimension { w: width, h: height }
        };
        PackOptions { bin_size, atlas_compact_steps: steps, flipping, trim, pack_heuristics: HeuristicSet::all() }
    }
}

impl Default for PackOptions {
    /// Bins of 512 by 512 that do not grow, no turning, no trimming, every
    /// key.
    fn default() -> (options: PackOptions)
        ensures
            options == (PackOptions {
                bin_size: Dimension { w: 512, h: 512 },
                atlas_compact_steps: 0,
                flipping: false,
                trim: false,
                pack_heuristics: options.pack_heuristics,
            }),
            options.pack_heuristics.members() == PackHeuristic::every(),
    {
        PackOptions {
            bin_size: Dimension::new(512, 512),
            atlas_compact_steps: 0,
            flipping: false,
            trim: false,
            pack_heuristics: HeuristicSet::all(),
        }
    }
}

} // verus!
