//! What the drawing of packed bins needs to know: how large the canvas is,
//! which files are pictures, and which of several outcomes is the smallest.

use vstd::prelude::*;
use vstd::string::StrSliceExecFns;
use crate::bin::Bin;
use crate::geometry::Placement;

verus! {

/// The larger of two lengths.
pub open spec fn larger(a: int, b: int) -> int {
    if a >= b {
        a
    } else {
        b
    }
}

/// Width and height of the smallest canvas, of at least one by one, that
/// holds all the placements.
pub open spec fn extent(placements: Seq<Placement>) -> (int, int)
    decreases placements.len(),
{
    if placements.len() == 0 {
        (1, 1)
    } else {
        let before = extent(placements.drop_last());
        (larger(before.0, placements.last().rect.right()), larger(before.1, placements.last().rect.bottom()))
    }
}

/// The extent reaches every placement, and is reached by one unless it is
/// one.
pub proof fn lemma_extent(placements: Seq<Placement>)
    ensures
        extent(placements).0 >= 1,
        extent(placements).1 >= 1,
        forall|i: int|
            0 <= i < placements.len() ==> (#[trigger] placements[i]).rect.right() <= extent(placements).0
                && placements[i].rect.bottom() <= extent(placements).1,
        extent(placements).0 == 1 || exists|i: int|
            0 <= i < placements.len() && (#[trigger] placements[i]).rect.right() == extent(placements).0,
        extent(placements).1 == 1 || exists|i: int|
            0 <= i < placements.len() && (#[trigger] placements[i]).rect.bottom() == extent(placements).1,
    decreases placements.len(),
{
    if placements.len() > 0 {
        let head = placements.drop_last();
        let last = placements.len() - 1;
        lemma_extent(head);
        assert forall|i: int| 0 <= i < placements.len() implies (#[trigger] placements[i]).rect.right() <= extent(
            placements,
        ).0 && placements[i].rect.bottom() <= extent(placements).1 by {
            if i < last {
                assert(head[i] == placements[i]);
            }
        }
        if extent(placements).0 != 1 {
            if extent(placements).0 == placements[last].rect.right() {
            } else {
                let i = choose|i: int| 0 <= i < head.len() && (#[trigger] head[i]).rect.right() == extent(head).0;
                assert(placements[i] == head[i]);
            }
        }
        if extent(placements).1 != 1 {
            if extent(placements).1 == placements[last].rect.bottom() {
            } else {
                let i = choose|i: int| 0 <= i < head.len() && (#[trigger] head[i]).rect.bottom() == extent(head).1;
                assert(placements[i] == head[i]);
            }
        }
    }
}

/// The size of the canvas on which a bin is drawn: the size of the bin, or,
/// trimmed, the extent of its placements. Every bin that is in order meets
/// the demand: its placements lie inside it.
pub fn compute_atlas_size(bin: &Bin, trim: bool) -> (size: (u32, u32))
    requires
        trim ==> forall|i: int|
            0 <= i < bin.model().placements.len() ==> (#[trigger] bin.model().placements[i]).rect.representable(),
    ensures
        !trim ==> size.0 == bin.model().size.w && size.1 == bin.model().size.h,
        trim ==> size.0 == extent(bin.model().placements).0 && size.1 == extent(bin.model().placements).1,
{
    if trim {
        let placements = bin.placements();
        let mut width: u32 = 1;
        let mut height: u32 = 1;
        let mut i: usize = 0;
        proof {
            assert(placements@.take(0) =~= Seq::<Placement>::empty());
        }
        while i < placements.len()
            invariant
                0 <= i <= placements.len(),
                placements@ == bin.model().placements,
                forall|k: int|
                    0 <= k < placements@.len() ==> (#[trigger] bin.model().placements[k]).rect.representable(),
                width == extent(placements@.take(i as int)).0,
                height == extent(placements@.take(i as int)).1,
            decreases placements.len() - i,
        {
            let p = placements[i];
            proof {
                assert(bin.model().placements[i as int].rect.representable());
                assert(placements@.take(i as int + 1).drop_last() =~= placements@.take(i as int));
            }
            let r = p.rect.r();
            let b = p.rect.b();
            if r > width {
                width = r;
            }
            if b > height {
                height = b;
            }
            i += 1;
        }
        proof {
            assert(placements@.take(i as int) =~= placements@);
        }
        (width, height)
    } else {
        let size = bin.size();
        (size.w, size.h)
    }
}

/// The small letter for a capital letter of the basic alphabet; every other
/// character as it is.
pub open spec fn small(c: char) -> char {
    if 'A' <= c && c <= 'Z' {
        ((c as int) + 32) as char
    } else {
        c
    }
}

/// The text names one of the picture formats that can be read, in small or
/// capital letters.
pub open spec fn supported(extension: Seq<char>) -> bool {
    let name = extension.map_values(|c: char| small(c));
    name == "png"@ || name == "bmp"@ || name == "gif"@ || name == "jpg"@ || name == "jpeg"@ || name == "ico"@
        || name == "tiff"@ || name == "webp"@ || name == "ppm"@
}

fn small_letter(c: char) -> (low: char)
    ensures
        low == small(c),
{
    if c >= 'A' && c <= 'Z' {
        ((c as u8) + 32) as char
    } else {
        c
    }
}

/// Whether the characters spell the word.
fn spells(name: &Vec<char>, word: &str) -> (same: bool)
    ensures
        same == (name@ == word@),
{
    let n = word.unicode_len();
    if name.len() != n {
        return false;
    }
    let mut i: usize = 0;
    while i < n
        invariant
            0 <= i <= n,
            n == word@.len(),
            n == name@.len(),
            forall|k: int| 0 <= k < i ==> name@[k] == word@[k],
        decreases n - i,
    {
        if name[i] != word.get_char(i) {
            return false;
        }
        i += 1;
    }
    assert(name@ =~= word@);
    true
}

/// Whether a file with this extension is a picture that can be read.
pub fn is_supported_format(extension: &str) -> (ok: bool)
    ensures
        ok == supported(extension@),
{
    let n = extension.unicode_len();
    let mut name: Vec<char> = Vec::with_capacity(n);
    let mut i: usize = 0;
    while i < n
        invariant
            0 <= i <= n,
            n == extension@.len(),
            name@ == extension@.take(i as int).map_values(|c: char| small(c)),
        decreases n - i,
    {
        name.push(small_letter(extension.get_char(i)));
        proof {
            assert(name@ =~= extension@.take(i as int + 1).map_values(|c: char| small(c)));
        }
        i += 1;
    }
    proof {
        assert(extension@.take(n as int) =~= extension@);
    }
    spells(&name, "png") || spells(&name, "bmp") || spells(&name, "gif") || spells(&name, "jpg") || spells(
        &name,
        "jpeg",
    ) || spells(&name, "ico") || spells(&name, "tiff") || spells(&name, "webp") || spells(&name, "ppm")
}

/// The place of the first of the smallest sizes, or `None` if there is no
/// size.
pub fn smallest(sizes: &[u64]) -> (best: Option<usize>)
    ensures
        best is None <==> sizes@.len() == 0,
        best matches Some(at) ==> {
            &&& at < sizes@.len()
            &&& forall|i: int| 0 <= i < sizes@.len() ==> sizes@[at as int] <= sizes@[i]
            &&& forall|i: int| 0 <= i < at ==> sizes@[at as int] < sizes@[i]
        },
{
    if sizes.len() == 0 {
        return None;
    }
    let mut at: usize = 0;
    let mut i: usize = 1;
    while i < sizes.len()
        invariant
            0 <= at < i <= sizes.len(),
            forall|k: int| 0 <= k < i ==> sizes@[at as int] <= sizes@[k],
            forall|k: int| 0 <= k < at ==> sizes@[at as int] < sizes@[k],
        decreases sizes.len() - i,
    {
        if sizes[i] < sizes[at] {
            at = i;
        }
        i += 1;
    }
    Some(at)
}

/// The points of the mark on a sample picture: a vertical stroke down the
/// middle column, from the third row to the third from the bottom, with one
/// point on either side of it in the fourth row.
pub open spec fn mark(width: u32, height: u32) -> Seq<(u32, u32)> {
    let x = width / 2;
    seq![((x - 1) as u32, 3u32), ((x + 1) as u32, 3u32)] + Seq::new(
        (height - 4) as nat,
        |i: int| (x, (i + 2) as u32),
    )
}

/// The points of the mark on a sample picture of the given size. All of
/// them lie on the picture.
pub fn mark_points(width: u32, height: u32) -> (points: Vec<(u32, u32)>)
    requires
        width >= 3,
        height >= 4,
    ensures
        points@ == mark(width, height),
        forall|i: int| 0 <= i < points@.len() ==> (#[trigger] points@[i]).0 < width && points@[i].1 < height,
{
    let x = width / 2;
    let mut points: Vec<(u32, u32)> = Vec::new();
    points.push((x - 1, 3));
    points.push((x + 1, 3));
    let mut y: u32 = 2;
    while y < height - 2
        invariant
            2 <= y <= height - 2,
            x == width / 2,
            width >= 3,
            points@ == seq![((x - 1) as u32, 3u32), ((x + 1) as u32, 3u32)] + Seq::new(
                (y - 2) as nat,
                |i: int| (x, (i + 2) as u32),
            ),
        decreases height - y,
    {
        points.push((x, y));
        proof {
            assert(points@ =~= seq![((x - 1) as u32, 3u32), ((x + 1) as u32, 3u32)] + Seq::new(
                (y + 1 - 2) as nat,
                |i: int| (x, (i + 2) as u32),
            ));
        }
        y += 1;
    }
    points
}

} // verus!
