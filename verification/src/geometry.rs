//! Sizes, placed rectangles and the test that decides whether one size fits
//! inside another.

use vstd::prelude::*;

verus! {

/// Width and height of an axis-aligned box.
#[derive(Clone, Copy, PartialEq, Eq, Debug, Structural)]
pub struct Dimension {
    pub w: u32,
    pub h: u32,
}

/// Outcome of testing an inner size against an outer one. The flag says
/// whether the inner box has to be turned by a quarter turn.
#[derive(Clone, Copy, PartialEq, Eq, Debug, Structural)]
pub enum Fit {
    No,
    Yes(bool),
    Exact(bool),
}

/// A region at a position. `size` is the size as it lies in the plane,
/// `flipped` says that the box it holds was turned to get there.
#[derive(Clone, Copy, PartialEq, Eq, Debug, Structural)]
pub struct Rectangle {
    pub x: u32,
    pub y: u32,
    pub size: Dimension,
    pub flipped: bool,
}

/// Where the box with the caller's number `index` ended up.
#[derive(Clone, Copy, PartialEq, Eq, Debug, Structural)]
pub struct Placement {
    pub index: u32,
    pub rect: Rectangle,
}

impl Fit {
    /// The rotation that this outcome asks for; `false` where nothing fits.
    pub open spec fn turn(self) -> bool {
        match self {
            Fit::No => false,
            Fit::Yes(flip) => flip,
            Fit::Exact(flip) => flip,
        }
    }

    /// The box can be placed: it fits, and it needs no rotation unless
    /// rotation is permitted.
    pub open spec fn allows(self, flipping: bool) -> bool {
        match self {
            Fit::No => false,
            Fit::Yes(flip) => !flip || flipping,
            Fit::Exact(flip) => !flip || flipping,
        }
    }

    /// Executable form of [`Fit::allows`].
    pub fn is_allowed(&self, flipping: bool) -> (ok: bool)
        ensures
            ok == self.allows(flipping),
    {
        match *self {
            Fit::No => false,
            Fit::Yes(flip) => !flip || flipping,
            Fit::Exact(flip) => !flip || flipping,
        }
    }
}

impl Dimension {
    /// The box of the given width and height.
    pub fn new(w: u32, h: u32) -> (d: Dimension)
        ensures
            d == (Dimension { w, h }),
    {
        Dimension { w, h }
    }

    /// The same box after a quarter turn if `flip`, unchanged otherwise.
    pub open spec fn turned(self, flip: bool) -> Dimension {
        if flip {
            Dimension { w: self.h, h: self.w }
        } else {
            self
        }
    }

    /// How `inner` fits into `self`. An exact match wins over a loose one,
    /// and among matches of the same kind the unrotated one wins.
    pub open spec fn fit_of(self, inner: Dimension) -> Fit {
        if self.w == inner.w && self.h == inner.h {
            Fit::Exact(false)
        } else if self.h == inner.w && self.w == inner.h {
            Fit::Exact(true)
        } else if self.w >= inner.w && self.h >= inner.h {
            Fit::Yes(false)
        } else if self.h >= inner.w && self.w >= inner.h {
            Fit::Yes(true)
        } else {
            Fit::No
        }
    }

    /// `inner` can lie inside `self`, rotated only if `flipping` permits it.
    pub open spec fn admits(self, inner: Dimension, flipping: bool) -> bool {
        self.fit_of(inner).allows(flipping)
    }

    /// Tests how `inner` fits into `self`.
    pub fn fits(&self, inner: &Dimension) -> (fit: Fit)
        ensures
            fit == self.fit_of(*inner),
    {
        if self.w == inner.w && self.h == inner.h {
            return Fit::Exact(false);
        }
        if self.h == inner.w && self.w == inner.h {
            return Fit::Exact(true);
        }
        if self.w >= inner.w && self.h >= inner.h {
            return Fit::Yes(false);
        }
        if self.h >= inner.w && self.w >= inner.h {
            return Fit::Yes(true);
        }
        Fit::No
    }
}

impl Rectangle {
    /// The rectangle with its corner at the origin that spans `size`.
    pub open spec fn at_origin(size: Dimension) -> Rectangle {
        Rectangle { x: 0, y: 0, size, flipped: false }
    }

    /// One past the right-most column, as a mathematical integer.
    pub open spec fn right(self) -> int {
        self.x + self.size.w
    }

    /// One past the bottom row, as a mathematical integer.
    pub open spec fn bottom(self) -> int {
        self.y + self.size.h
    }

    /// Both far edges are representable coordinates.
    pub open spec fn representable(self) -> bool {
        self.right() <= u32::MAX && self.bottom() <= u32::MAX
    }

    /// The rectangle lies inside `[0, size.w) x [0, size.h)`.
    pub open spec fn within(self, size: Dimension) -> bool {
        self.right() <= size.w && self.bottom() <= size.h
    }

    /// The rectangle lies inside `outer`.
    pub open spec fn inside(self, outer: Rectangle) -> bool {
        &&& outer.x <= self.x
        &&& outer.y <= self.y
        &&& self.right() <= outer.right()
        &&& self.bottom() <= outer.bottom()
    }

    /// The open interiors of the two rectangles share a point.
    pub open spec fn overlaps(self, other: Rectangle) -> bool {
        &&& self.x < self.right()
        &&& other.x < other.right()
        &&& self.y < self.bottom()
        &&& other.y < other.bottom()
        &&& self.x < other.right()
        &&& other.x < self.right()
        &&& self.y < other.bottom()
        &&& other.y < self.bottom()
    }

    /// The size of the box before any rotation.
    pub open spec fn original_size(self) -> Dimension {
        self.size.turned(self.flipped)
    }

    /// The top row.
    pub fn t(&self) -> (top: u32)
        ensures
            top == self.y,
    {
        self.y
    }

    /// The left-most column.
    pub fn l(&self) -> (left: u32)
        ensures
            left == self.x,
    {
        self.x
    }

    /// One past the bottom row.
    pub fn b(&self) -> (bottom: u32)
        requires
            self.bottom() <= u32::MAX,
        ensures
            bottom == self.bottom(),
    {
        self.y + self.size.h
    }

    /// One past the right-most column.
    pub fn r(&self) -> (right: u32)
        requires
            self.right() <= u32::MAX,
        ensures
            right == self.right(),
    {
        self.x + self.size.w
    }

    /// The size of the box before any rotation.
    pub fn non_flipped_size(&self) -> (d: Dimension)
        ensures
            d == self.original_size(),
    {
        if self.flipped {
            Dimension::new(self.size.h, self.size.w)
        } else {
            self.size
        }
    }
}

/// An exact fit, in either orientation, is the same as the two boxes having
/// the same set of side lengths.
pub proof fn lemma_exact_iff_same_sides(a: Dimension, b: Dimension)
    ensures
        (a.fit_of(b) is Exact) <==> set![a.w, a.h] =~= set![b.w, b.h],
{
    let sa = set![a.w, a.h];
    let sb = set![b.w, b.h];
    if sa =~= sb {
        assert(sa.contains(a.w) && sa.contains(a.h));
        assert(sb.contains(b.w) && sb.contains(b.h));
        assert(sb.contains(a.w) && sb.contains(a.h));
        assert(sa.contains(b.w) && sa.contains(b.h));
    }
}

/// A box that can lie in a region can lie in every region that is at least
/// as wide and as high.
pub proof fn lemma_admits_monotone(small: Dimension, large: Dimension, inner: Dimension, flipping: bool)
    requires
        small.w <= large.w,
        small.h <= large.h,
        small.admits(inner, flipping),
    ensures
        large.admits(inner, flipping),
{
}

} // verus!
