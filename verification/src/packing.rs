//! Rectangles on a canvas: where a packer puts them, and whether a layout
//! keeps them inside the canvas and apart from each other.

use rectangle_pack::{
    contains_smallest_box, pack_rects, volume_heuristic, GroupedRectsToPlace, RectToInsert,
    TargetBin,
};
use std::collections::BTreeMap;
use vstd::prelude::*;

verus! {

/// A rectangle of whole pixels: its top-left corner and its size.
#[derive(Clone, Copy, Debug, PartialEq, Eq, Structural)]
pub struct Rect {
    pub x: u32,
    pub y: u32,
    pub width: u32,
    pub height: u32,
}

/// Whether the pixel in column `x` of row `y` lies in `r`.
pub open spec fn covers(r: Rect, x: int, y: int) -> bool {
    r.x <= x < r.x + r.width && r.y <= y < r.y + r.height
}

/// Whether `r` lies fully on a canvas of the given size.
pub open spec fn inside(r: Rect, width: int, height: int) -> bool {
    r.x + r.width <= width && r.y + r.height <= height
}

/// Whether `a` and `b` are separated by a vertical or a horizontal line.
pub open spec fn apart(a: Rect, b: Rect) -> bool {
    a.x + a.width <= b.x || b.x + b.width <= a.x || a.y + a.height <= b.y || b.y + b.height
        <= a.y
}

/// The rectangles of the given sizes with their corners at the given places.
pub open spec fn placed(sizes: Seq<(u32, u32)>, corners: Seq<(u32, u32)>) -> Seq<Rect> {
    Seq::new(
        sizes.len(),
        |i: int| Rect { x: corners[i].0, y: corners[i].1, width: sizes[i].0, height: sizes[i].1 },
    )
}

/// Whether every rectangle lies on the canvas and no two share a pixel.
pub open spec fn fits(rects: Seq<Rect>, width: int, height: int) -> bool {
    &&& forall|i: int| 0 <= i < rects.len() ==> inside(#[trigger] rects[i], width, height)
    &&& forall|i: int, j: int|
        0 <= i < j < rects.len() ==> apart(#[trigger] rects[i], #[trigger] rects[j])
}

/// The top-left corners that the `rectangle_pack` crate gives to rectangles
/// of these sizes (width, height) in one bin of the given size, or `None`
/// where it reports that the bin is too small. The rectangles are not
/// grouped and not rotated; the larger area is placed first, into the free
/// section whose split leaves the smallest box.
pub uninterp spec fn packed_layout(sizes: Seq<(u32, u32)>, width: u32, height: u32) -> Option<
    Seq<(u32, u32)>,
>;

/// `rectangle_pack::pack_rects` with `volume_heuristic` and
/// `contains_smallest_box`, on one bin of depth 1 and one ungrouped
/// rectangle of depth 1 for each size, identified by its position. The
/// packer is deterministic, so its answer is named by `packed_layout`;
/// nothing else is claimed of it here.
#[verifier::external_body]
pub(crate) fn pack_into_bin(sizes: &Vec<(u32, u32)>, width: u32, height: u32) -> (r: Option<
    Vec<(u32, u32)>,
>)
    ensures
        match r {
            Some(corners) => packed_layout(sizes@, width, height) == Some(corners@),
            None => packed_layout(sizes@, width, height) is None,
        },
{
    let mut rects: GroupedRectsToPlace<usize, ()> = GroupedRectsToPlace::new();
    for (id, size) in sizes.iter().enumerate() {
        rects.push_rect(id, None, RectToInsert::new(size.0, size.1, 1));
    }
    let mut bins = BTreeMap::new();
    bins.insert((), TargetBin::new(width, height, 1));
    let packed = pack_rects(&rects, &mut bins, &volume_heuristic, &contains_smallest_box).ok()?;
    let places = packed.packed_locations();
    (0..sizes.len()).map(|id| places.get(&id).map(|p| (p.1.x(), p.1.y()))).collect()
}

/// Whether `r` lies fully on a canvas of the given size.
fn is_inside(r: &Rect, width: u32, height: u32) -> (b: bool)
    ensures
        b == inside(*r, width as int, height as int),
{
    r.x as u64 + r.width as u64 <= width as u64 && r.y as u64 + r.height as u64 <= height as u64
}

/// Whether `a` and `b` are separated by a vertical or a horizontal line.
fn is_apart(a: &Rect, b: &Rect) -> (r: bool)
    ensures
        r == apart(*a, *b),
{
    a.x as u64 + a.width as u64 <= b.x as u64 || b.x as u64 + b.width as u64 <= a.x as u64
        || a.y as u64 + a.height as u64 <= b.y as u64 || b.y as u64 + b.height as u64
        <= a.y as u64
}

/// The rectangles of a proposed layout, if it has one corner for each size
/// and keeps every rectangle on the canvas and apart from the others.
pub fn check_layout(
    sizes: &Vec<(u32, u32)>,
    corners: &Vec<(u32, u32)>,
    width: u32,
    height: u32,
) -> (r: Option<Vec<Rect>>)
    ensures
        match r {
            Some(rects) => corners@.len() == sizes@.len() && rects@ == placed(sizes@, corners@)
                && fits(rects@, width as int, height as int),
            None => corners@.len() != sizes@.len() || !fits(
                placed(sizes@, corners@),
                width as int,
                height as int,
            ),
        },
{
    if corners.len() != sizes.len() {
        return None;
    }
    let mut rects: Vec<Rect> = Vec::new();
    let mut i: usize = 0;
    while i < sizes.len()
        invariant
            i <= sizes@.len(),
            corners@.len() == sizes@.len(),
            rects@ == placed(sizes@, corners@).take(i as int),
            fits(rects@, width as int, height as int),
        decreases sizes@.len() - i,
    {
        let r = Rect {
            x: corners[i].0,
            y: corners[i].1,
            width: sizes[i].0,
            height: sizes[i].1,
        };
        assert(r == placed(sizes@, corners@)[i as int]);
        if !is_inside(&r, width, height) {
            return None;
        }
        let mut j: usize = 0;
        while j < i
            invariant
                j <= i,
                i < sizes@.len(),
                corners@.len() == sizes@.len(),
                rects@ == placed(sizes@, corners@).take(i as int),
                r == placed(sizes@, corners@)[i as int],
                forall|k: int| 0 <= k < j ==> apart(#[trigger] rects@[k], r),
            decreases i - j,
        {
            if !is_apart(&rects[j], &r) {
                assert(rects@[j as int] == placed(sizes@, corners@)[j as int]);
                return None;
            }
            j = j + 1;
        }
        rects.push(r);
        assert(rects@ =~= placed(sizes@, corners@).take(i + 1));
        i = i + 1;
    }
    assert(rects@ =~= placed(sizes@, corners@));
    Some(rects)
}

/// Two rectangles that are each wider than half the canvas and taller than
/// half the canvas cannot both be placed.
pub proof fn lemma_two_large_rects_collide(a: Rect, b: Rect, width: int, height: int)
    requires
        2 * a.width > width,
        2 * b.width > width,
        2 * a.height > height,
        2 * b.height > height,
        inside(a, width, height),
        inside(b, width, height),
    ensures
        !apart(a, b),
{
}

} // verus!
