//! The texture atlas: frames of many bitmaps packed into one canvas, each
//! under a numeric handle.

use vstd::prelude::*;
use vstd::string::StringExecFns;

use crate::error::{decimal, decimal_text, fails_with, BMError, BMResult, Fault, NotFound};
use crate::graphics::{
    decoded_colours, decoded_frames, unusable_palette_text, usable_colours, with_palettes, Color,
    Frame, FrameView, Palette, TIM3Bitmap, TIM3Palette,
};
use crate::packing::{
    apart, check_layout, covers, fits, inside, lemma_two_large_rects_collide, pack_into_bin,
    packed_layout, placed, Rect,
};
use crate::resource::{extraction, no_record_text, parsed_index, Assets, TIM3ResourceMap};
use crate::wire::{ends_with, starts_with, uppercase_of};

verus! {

/// The width and the height of the canvas of `Atlas::new`.
pub const ATLAS_SIZE: u32 = 1024;

/// The most pixels that a canvas may have.
pub const MAX_CANVAS_PIXELS: u64 = 0x1000_0000;

/// The value of every canvas pixel that no frame covers.
pub const BACKGROUND: u8 = 0;

/// Where a registered frame was placed, and the handle it got.
#[derive(Clone, Copy, Debug, PartialEq, Eq, Structural)]
pub struct AtlasEntry {
    pub id: usize,
    pub rect: Rect,
}

/// The position in a canvas of the pixel in column `x` of row `y`.
pub open spec fn cell(width: int, x: int, y: int) -> int {
    y * width + x
}

/// Whether no rectangle covers the pixel in column `x` of row `y`.
pub open spec fn clear_of(rects: Seq<Rect>, x: int, y: int) -> bool {
    forall|i: int| 0 <= i < rects.len() ==> !covers(#[trigger] rects[i], x, y)
}

/// Whether the canvas holds each frame's pixels in the frame's rectangle,
/// row by row, and the background everywhere else.
pub open spec fn shows(
    canvas: Seq<u8>,
    width: int,
    height: int,
    rects: Seq<Rect>,
    frames: Seq<FrameView>,
) -> bool {
    &&& forall|i: int, x: int, y: int|
        #![trigger covers(rects[i], x, y)]
        0 <= i < rects.len() && covers(rects[i], x, y) ==> canvas[cell(width, x, y)]
            == frames[i].pixel(x - rects[i].x, y - rects[i].y)
    &&& forall|x: int, y: int|
        #![trigger cell(width, x, y)]
        0 <= x < width && 0 <= y < height && clear_of(rects, x, y) ==> canvas[cell(width, x, y)]
            == BACKGROUND
}

/// The entries of frames placed at `rects`: handle `i` for the frame
/// registered as number `i`.
pub open spec fn entries_of(rects: Seq<Rect>) -> Seq<AtlasEntry> {
    Seq::new(rects.len(), |i: int| AtlasEntry { id: i as usize, rect: rects[i] })
}

/// The rectangles of the entries, in the order of the entries.
pub open spec fn rects_of(entries: Seq<AtlasEntry>) -> Seq<Rect> {
    Seq::new(entries.len(), |i: int| entries[i].rect)
}

/// The keys of the frames of a bitmap called `name` with `n` frames.
pub open spec fn keys_of(name: Seq<char>, n: nat) -> Seq<(Seq<char>, nat)> {
    Seq::new(n, |f: int| (name, f as nat))
}

/// Whether `i` is the first position of `key` in `keys`.
pub open spec fn is_first(keys: Seq<(Seq<char>, nat)>, key: (Seq<char>, nat), i: int) -> bool {
    &&& 0 <= i < keys.len()
    &&& keys[i] == key
    &&& forall|j: int| 0 <= j < i ==> keys[j] != key
}

/// The message for frames that the canvas has no room for.
pub open spec fn no_room_text(count: nat) -> Seq<char> {
    "Not enough space in the atlas; rectangles left unplaced: "@ + decimal(count)
}

/// The message for a layout that leaves the canvas or lets frames overlap.
pub open spec fn bad_layout_text() -> Seq<char> {
    "Layout does not keep the frames apart on the canvas"@
}

/// The message for a canvas of more than `MAX_CANVAS_PIXELS` pixels.
pub open spec fn canvas_size_text() -> Seq<char> {
    "Atlas canvas is too large"@
}

/// What an atlas holds, as plain mathematics.
pub struct AtlasView {
    pub width: nat,
    pub height: nat,
    /// The source name and frame index of each registered frame, in the
    /// order of registration.
    pub keys: Seq<(Seq<char>, nat)>,
    /// The registered frames, in the same order.
    pub frames: Seq<FrameView>,
    /// The placement of each registered frame, once the atlas is built.
    pub entries: Option<Seq<AtlasEntry>>,
    /// The canvas pixels, row after row.
    pub canvas: Seq<u8>,
}

impl AtlasView {
    /// The width and height of each registered frame.
    pub open spec fn sizes(self) -> Seq<(u32, u32)> {
        Seq::new(
            self.frames.len(),
            |i: int| (self.frames[i].width as u32, self.frames[i].height as u32),
        )
    }

    /// An atlas with a blank canvas of the given size and no frames.
    pub open spec fn blank(width: nat, height: nat) -> AtlasView {
        AtlasView {
            width,
            height,
            keys: Seq::empty(),
            frames: Seq::empty(),
            entries: None,
            canvas: Seq::new(width * height, |i: int| BACKGROUND),
        }
    }

    /// The atlas after the frames of a bitmap called `name` have been
    /// registered. Their placement is yet to be made.
    pub open spec fn with_bitmap(self, name: Seq<char>, frames: Seq<FrameView>) -> AtlasView {
        AtlasView {
            keys: self.keys + keys_of(name, frames.len()),
            frames: self.frames + frames,
            entries: None,
            ..self
        }
    }

    /// The atlas after the frames have been placed with their corners at
    /// `corners`: all but the canvas, which `shows` describes.
    pub open spec fn placed_at(self, corners: Seq<(u32, u32)>, canvas: Seq<u8>) -> AtlasView {
        AtlasView {
            entries: Some(entries_of(placed(self.sizes(), corners))),
            canvas: canvas,
            ..self
        }
    }

    /// Whether `entries` places every registered frame, in its own size, on
    /// the canvas and apart from the others, under the handles 0, 1, 2 and
    /// so on, and the canvas shows the frames there.
    pub open spec fn packed_as(self, entries: Seq<AtlasEntry>) -> bool {
        let rects = rects_of(entries);
        &&& entries.len() == self.frames.len()
        &&& forall|i: int| 0 <= i < entries.len() ==> (#[trigger] entries[i]).id == i
        &&& forall|i: int|
            0 <= i < entries.len() ==> (#[trigger] entries[i]).rect.width == self.frames[i].width
                && entries[i].rect.height == self.frames[i].height
        &&& fits(rects, self.width as int, self.height as int)
        &&& shows(self.canvas, self.width as int, self.height as int, rects, self.frames)
    }

    /// The invariant of an atlas.
    pub open spec fn well_formed(self) -> bool {
        &&& self.width <= u32::MAX
        &&& self.height <= u32::MAX
        &&& self.keys.len() == self.frames.len()
        &&& self.frames.len() <= usize::MAX
        &&& forall|i: int| 0 <= i < self.frames.len() ==> (#[trigger] self.frames[i]).well_formed()
        &&& self.canvas.len() == self.width * self.height
        &&& self.entries matches Some(entries) ==> self.packed_as(entries)
    }
}

/// Frames registered under (source name, frame index), and after `build`
/// their places on the canvas and the canvas itself.
#[derive(Debug)]
pub struct Atlas {
    width: u32,
    height: u32,
    keys: Vec<(String, usize)>,
    frames: Vec<Frame>,
    entries: Vec<AtlasEntry>,
    built: bool,
    canvas: Vec<u8>,
}

/// The pixel that shows in column `x` of row `y` after the first `n`
/// frames have been drawn in turn onto the background.
spec fn painted(rects: Seq<Rect>, frames: Seq<FrameView>, n: nat, x: int, y: int) -> u8
    decreases n,
{
    if n == 0 {
        BACKGROUND
    } else if covers(rects[n - 1], x, y) {
        frames[n - 1].pixel(x - rects[n - 1].x, y - rects[n - 1].y)
    } else {
        painted(rects, frames, (n - 1) as nat, x, y)
    }
}

/// The same while frame `k` is being drawn: its rows above `row`, and
/// the columns left of `col` in row `row`, are drawn already.
spec fn painting(
    rects: Seq<Rect>,
    frames: Seq<FrameView>,
    k: nat,
    row: int,
    col: int,
    x: int,
    y: int,
) -> u8 {
    if covers(rects[k as int], x, y) && (y - rects[k as int].y < row || (y - rects[k as int].y
        == row && x - rects[k as int].x < col)) {
        frames[k as int].pixel(x - rects[k as int].x, y - rects[k as int].y)
    } else {
        painted(rects, frames, k, x, y)
    }
}

/// Pixels of a canvas row are stored apart: a position belongs to one
/// column and one row.
proof fn lemma_cell_unique(width: int, x: int, y: int, x0: int, y0: int)
    requires
        0 <= x < width,
        0 <= x0 < width,
        cell(width, x, y) == cell(width, x0, y0),
    ensures
        x == x0,
        y == y0,
{
    assert((y - y0) * width == x0 - x) by (nonlinear_arith)
        requires
            y * width + x == y0 * width + x0,
    ;
    assert(y == y0) by (nonlinear_arith)
        requires
            (y - y0) * width == x0 - x,
            -width < x0 - x < width,
    ;
}

/// Every pixel of the canvas has a position in it.
proof fn lemma_cell_in_canvas(width: int, height: int, x: int, y: int)
    requires
        0 <= x < width,
        0 <= y < height,
    ensures
        0 <= y * width,
        0 <= cell(width, x, y) < width * height,
{
    assert(0 <= y * width && y * width + x < width * height) by (nonlinear_arith)
        requires
            0 <= x < width,
            0 <= y < height,
    ;
}

/// Frames that are kept apart show whole after all have been drawn.
proof fn lemma_painted_apart(rects: Seq<Rect>, frames: Seq<FrameView>, n: nat, x: int, y: int)
    requires
        n <= rects.len(),
        forall|i: int, j: int|
            0 <= i < j < rects.len() ==> apart(#[trigger] rects[i], #[trigger] rects[j]),
    ensures
        forall|i: int|
            0 <= i < n && covers(#[trigger] rects[i], x, y) ==> painted(rects, frames, n, x, y)
                == frames[i].pixel(x - rects[i].x, y - rects[i].y),
        (forall|i: int| 0 <= i < n ==> !covers(#[trigger] rects[i], x, y)) ==> painted(
            rects,
            frames,
            n,
            x,
            y,
        ) == BACKGROUND,
    decreases n,
{
    if n > 0 {
        lemma_painted_apart(rects, frames, (n - 1) as nat, x, y);
    }
}

impl Atlas {
    /// The atlas as plain mathematics.
    pub closed spec fn view(&self) -> AtlasView {
        AtlasView {
            width: self.width as nat,
            height: self.height as nat,
            keys: Seq::new(self.keys@.len(), |i: int| (self.keys@[i].0@, self.keys@[i].1 as nat)),
            frames: Seq::new(self.frames@.len(), |i: int| self.frames@[i]@),
            entries: if self.built {
                Some(self.entries@)
            } else {
                None
            },
            canvas: self.canvas@,
        }
    }

    /// The invariant of an atlas.
    pub open spec fn wf(&self) -> bool {
        self@.well_formed()
    }

    /// An empty atlas with a canvas of the given size, all background, if
    /// the canvas has at most `MAX_CANVAS_PIXELS` pixels.
    pub fn with_size(width: u32, height: u32) -> (r: BMResult<Atlas>)
        ensures
            match r {
                Ok(atlas) => width * height <= MAX_CANVAS_PIXELS && atlas.wf() && atlas@
                    == AtlasView::blank(width as nat, height as nat),
                Err(e) => width * height > MAX_CANVAS_PIXELS && e.message()
                    == canvas_size_text(),
            },
    {
        assert(0 <= width * height <= 0xffff_ffff * 0xffff_ffff) by (nonlinear_arith)
            requires
                0 <= width <= 0xffff_ffff,
                0 <= height <= 0xffff_ffff,
        ;
        let area: u64 = (width as u64) * (height as u64);
        if area > MAX_CANVAS_PIXELS {
            return Err(BMError::loading("Atlas canvas is too large"));
        }
        let canvas: Vec<u8> = vec![BACKGROUND; area as usize];
        let atlas = Atlas {
            width,
            height,
            keys: Vec::new(),
            frames: Vec::new(),
            entries: Vec::new(),
            built: false,
            canvas,
        };
        assert(atlas@.keys =~= Seq::empty());
        assert(atlas@.frames =~= Seq::empty());
        assert(atlas@.canvas =~= AtlasView::blank(width as nat, height as nat).canvas);
        Ok(atlas)
    }

    /// An empty atlas with a canvas of `ATLAS_SIZE` by `ATLAS_SIZE` pixels.
    pub fn new() -> (r: BMResult<Atlas>)
        ensures
            r matches Ok(atlas) && atlas.wf() && atlas@ == AtlasView::blank(
                ATLAS_SIZE as nat,
                ATLAS_SIZE as nat,
            ),
    {
        Self::with_size(ATLAS_SIZE, ATLAS_SIZE)
    }

    /// The width of the canvas.
    pub fn width(&self) -> (w: u32)
        ensures
            w == self@.width,
    {
        self.width
    }

    /// The height of the canvas.
    pub fn height(&self) -> (h: u32)
        ensures
            h == self@.height,
    {
        self.height
    }

    /// The number of registered frames.
    pub fn len(&self) -> (n: usize)
        ensures
            n == self@.frames.len(),
    {
        self.frames.len()
    }

    /// Whether the registered frames have been placed.
    pub fn is_built(&self) -> (b: bool)
        ensures
            b == self@.entries is Some,
    {
        self.built
    }

    /// The canvas pixels, row after row.
    pub fn canvas(&self) -> (pixels: &[u8])
        ensures
            pixels@ == self@.canvas,
    {
        self.canvas.as_slice()
    }

    /// Registers every frame of `bitmap` under the bitmap's name and the
    /// frame's index. Nothing is placed; an earlier placement is dropped.
    pub fn add_bitmap(&mut self, bitmap: TIM3Bitmap)
        requires
            old(self).wf(),
            bitmap.wf(),
        ensures
            final(self).wf(),
            final(self)@ == old(self)@.with_bitmap(bitmap.name@, bitmap.frames_view()),
    {
        let ghost added = bitmap.frames_view();
        let ghost before = self@;
        let ghost known = old(self).keys@.len();
        let TIM3Bitmap { name, frames } = bitmap;
        let mut frames = frames;
        let ghost new_frames = frames@;
        let count = frames.len();
        self.frames.append(&mut frames);
        let mut f: usize = 0;
        while f < count
            invariant
                f <= count,
                known == old(self).keys@.len(),
                self.width == old(self).width,
                self.height == old(self).height,
                self.canvas == old(self).canvas,
                self.frames@ == old(self).frames@ + new_frames,
                self.keys@.len() == known + f,
                forall|i: int| 0 <= i < known ==> self.keys@[i] == old(self).keys@[i],
                forall|i: int|
                    known <= i < known + f ==> (#[trigger] self.keys@[i]).0@ == name@
                        && self.keys@[i].1 == i - known,
            decreases count - f,
        {
            self.keys.push((name.clone(), f));
            f = f + 1;
        }
        self.built = false;
        assert(self.frames@.len() <= usize::MAX) by {
            assert(self.frames.len() == self.frames@.len());
        }
        assert(self@.keys =~= before.keys + keys_of(name@, count as nat));
        assert(self@.frames =~= before.frames + added);
    }

    /// The width and height of each registered frame.
    fn sizes(&self) -> (sizes: Vec<(u32, u32)>)
        requires
            self.wf(),
        ensures
            sizes@ == self@.sizes(),
    {
        let mut sizes: Vec<(u32, u32)> = Vec::new();
        let mut i: usize = 0;
        while i < self.frames.len()
            invariant
                i <= self.frames@.len(),
                self.wf(),
                sizes@ == self@.sizes().take(i as int),
            decreases self.frames@.len() - i,
        {
            assert(self@.frames[i as int].well_formed());
            sizes.push((self.frames[i].width(), self.frames[i].height()));
            assert(sizes@ =~= self@.sizes().take(i + 1));
            i = i + 1;
        }
        assert(sizes@ =~= self@.sizes());
        sizes
    }

    /// Whether an atlas that held `before` has to hold `after` and answer
    /// `r` when it is given `layout`: the top-left corner for each
    /// registered frame, or `None` where no layout was found. A layout is
    /// taken only if it keeps every frame on the canvas and apart from the
    /// others; otherwise nothing changes.
    pub open spec fn placement(
        before: AtlasView,
        layout: Option<Seq<(u32, u32)>>,
        after: AtlasView,
        r: BMResult<()>,
    ) -> bool {
        match layout {
            None => after == before && fails_with(
                r,
                Fault(no_room_text(before.frames.len())),
            ),
            Some(corners) => if corners.len() == before.frames.len() && fits(
                placed(before.sizes(), corners),
                before.width as int,
                before.height as int,
            ) {
                &&& r is Ok
                &&& after == before.placed_at(corners, after.canvas)
                &&& after.canvas.len() == before.width * before.height
                &&& shows(
                    after.canvas,
                    before.width as int,
                    before.height as int,
                    placed(before.sizes(), corners),
                    before.frames,
                )
            } else {
                after == before && fails_with(r, Fault(bad_layout_text()))
            },
        }
    }

    /// Draws `frame`, which is registered as number `k`, at its rectangle.
    fn draw(
        canvas: &mut Vec<u8>,
        width: u32,
        height: u32,
        frame: &Frame,
        at: Rect,
        Ghost(rects): Ghost<Seq<Rect>>,
        Ghost(frames): Ghost<Seq<FrameView>>,
        Ghost(k): Ghost<nat>,
    )
        requires
            frame.wf(),
            k < rects.len(),
            rects.len() == frames.len(),
            rects[k as int] == at,
            frames[k as int] == frame@,
            at.width == frame@.width,
            at.height == frame@.height,
            inside(at, width as int, height as int),
            old(canvas)@.len() == width * height,
            forall|x: int, y: int|
                #![trigger cell(width as int, x, y)]
                0 <= x < width && 0 <= y < height ==> old(canvas)@[cell(width as int, x, y)]
                    == painted(rects, frames, k, x, y),
        ensures
            final(canvas)@.len() == width * height,
            forall|x: int, y: int|
                #![trigger cell(width as int, x, y)]
                0 <= x < width && 0 <= y < height ==> final(canvas)@[cell(width as int, x, y)]
                    == painted(rects, frames, k + 1, x, y),
    {
        let w = frame.width();
        let h = frame.height();
        let pixels = frame.pixels();
        let total = canvas.len();
        let count = pixels.len();
        let mut row: u32 = 0;
        while row < h
            invariant
                row <= h,
                w == at.width,
                h == at.height,
                frame.wf(),
                frame@.width == w,
                frame@.height == h,
                pixels@ == frame@.pixels,
                count == pixels@.len(),
                k < rects.len(),
                rects[k as int] == at,
                frames[k as int] == frame@,
                inside(at, width as int, height as int),
                canvas@.len() == width * height,
                total == canvas@.len(),
                forall|x: int, y: int|
                    #![trigger cell(width as int, x, y)]
                    0 <= x < width && 0 <= y < height ==> canvas@[cell(width as int, x, y)]
                        == painting(rects, frames, k, row as int, 0, x, y),
            decreases h - row,
        {
            let mut col: u32 = 0;
            while col < w
                invariant
                    col <= w,
                    row < h,
                    w == at.width,
                    h == at.height,
                    frame.wf(),
                    frame@.width == w,
                    frame@.height == h,
                    pixels@ == frame@.pixels,
                    count == pixels@.len(),
                    k < rects.len(),
                    rects[k as int] == at,
                    frames[k as int] == frame@,
                    inside(at, width as int, height as int),
                    canvas@.len() == width * height,
                    total == canvas@.len(),
                    forall|x: int, y: int|
                        #![trigger cell(width as int, x, y)]
                        0 <= x < width && 0 <= y < height ==> canvas@[cell(width as int, x, y)]
                            == painting(rects, frames, k, row as int, col as int, x, y),
                decreases w - col,
            {
                let ghost x0 = at.x + col;
                let ghost y0 = at.y + row;
                proof {
                    lemma_cell_in_canvas(w as int, h as int, col as int, row as int);
                    lemma_cell_in_canvas(width as int, height as int, x0, y0);
                }
                let src = (row as usize) * (w as usize) + (col as usize);
                let dst = ((at.y + row) as usize) * (width as usize) + ((at.x + col) as usize);
                let value = pixels[src];
                let ghost before = canvas@;
                canvas.set(dst, value);
                assert forall|x: int, y: int|
                    #![trigger cell(width as int, x, y)]
                    0 <= x < width && 0 <= y < height implies canvas@[cell(width as int, x, y)]
                    == painting(rects, frames, k, row as int, col + 1, x, y) by {
                    lemma_cell_in_canvas(width as int, height as int, x, y);
                    if cell(width as int, x, y) == dst {
                        lemma_cell_unique(width as int, x, y, x0, y0);
                    } else {
                        assert(canvas@[cell(width as int, x, y)] == before[cell(
                            width as int,
                            x,
                            y,
                        )]);
                    }
                }
                col = col + 1;
            }
            row = row + 1;
        }
    }

    /// Takes a layout for the registered frames: records each frame's
    /// rectangle under the next handle, in the order of registration, and
    /// draws the frames onto a canvas of background.
    pub fn place(&mut self, layout: Option<Vec<(u32, u32)>>) -> (r: BMResult<()>)
        requires
            old(self).wf(),
        ensures
            final(self).wf(),
            Self::placement(
                old(self)@,
                match layout {
                    Some(corners) => Some(corners@),
                    None => None,
                },
                final(self)@,
                r,
            ),
    {
        let corners = match layout {
            Some(corners) => corners,
            None => {
                let msg = String::from_str(
                    "Not enough space in the atlas; rectangles left unplaced: ",
                ).concat(decimal_text(self.frames.len()).as_str());
                return Err(BMError::LoadingError { msg });
            },
        };
        let sizes = self.sizes();
        let rects = match check_layout(&sizes, &corners, self.width, self.height) {
            Some(rects) => rects,
            None => {
                return Err(BMError::loading("Layout does not keep the frames apart on the canvas"));
            },
        };
        let ghost shown = self@.frames;
        let mut entries: Vec<AtlasEntry> = Vec::new();
        let mut canvas: Vec<u8> = vec![BACKGROUND; self.canvas.len()];
        let mut k: usize = 0;
        assert forall|x: int, y: int|
            #![trigger cell(self.width as int, x, y)]
            0 <= x < self.width && 0 <= y < self.height implies canvas@[cell(
            self.width as int,
            x,
            y,
        )] == painted(rects@, shown, 0, x, y) by {
            lemma_cell_in_canvas(self.width as int, self.height as int, x, y);
        }
        assert(entries@ =~= entries_of(rects@).take(0));
        while k < self.frames.len()
            invariant
                k <= self.frames@.len(),
                self.wf(),
                shown == self@.frames,
                rects@.len() == self.frames@.len(),
                rects@ == placed(self@.sizes(), corners@),
                fits(rects@, self.width as int, self.height as int),
                canvas@.len() == self.width * self.height,
                entries@ == entries_of(rects@).take(k as int),
                forall|x: int, y: int|
                    #![trigger cell(self.width as int, x, y)]
                    0 <= x < self.width && 0 <= y < self.height ==> canvas@[cell(
                        self.width as int,
                        x,
                        y,
                    )] == painted(rects@, shown, k as nat, x, y),
            decreases self.frames@.len() - k,
        {
            assert(shown[k as int].well_formed());
            Self::draw(
                &mut canvas,
                self.width,
                self.height,
                &self.frames[k],
                rects[k],
                Ghost(rects@),
                Ghost(shown),
                Ghost(k as nat),
            );
            entries.push(AtlasEntry { id: k, rect: rects[k] });
            assert(entries@ =~= entries_of(rects@).take(k + 1));
            k = k + 1;
        }
        proof {
            assert(entries@ =~= entries_of(rects@));
            assert(rects_of(entries@) =~= rects@);
            assert forall|i: int, x: int, y: int|
                #![trigger covers(rects@[i], x, y)]
                0 <= i < rects@.len() && covers(rects@[i], x, y) implies canvas@[cell(
                self.width as int,
                x,
                y,
            )] == shown[i].pixel(x - rects@[i].x, y - rects@[i].y) by {
                lemma_painted_apart(rects@, shown, rects@.len(), x, y);
                assert(inside(rects@[i], self.width as int, self.height as int));
            }
            assert forall|x: int, y: int|
                #![trigger cell(self.width as int, x, y)]
                0 <= x < self.width && 0 <= y < self.height && clear_of(
                    rects@,
                    x,
                    y,
                ) implies canvas@[cell(self.width as int, x, y)] == BACKGROUND by {
                lemma_painted_apart(rects@, shown, rects@.len(), x, y);
            }
        }
        self.entries = entries;
        self.canvas = canvas;
        self.built = true;
        Ok(())
    }

    /// The layout that `build` takes: the packer's answer for the sizes of
    /// the registered frames and the size of the canvas. Without frames
    /// there is nothing to ask.
    pub open spec fn chosen_layout(view: AtlasView) -> Option<Seq<(u32, u32)>> {
        if view.frames.len() == 0 {
            Some(Seq::empty())
        } else {
            packed_layout(view.sizes(), view.width as u32, view.height as u32)
        }
    }

    /// Packs the registered frames into the canvas. The packer decides
    /// where the frames go; `place` does the rest.
    pub fn build(&mut self) -> (r: BMResult<()>)
        requires
            old(self).wf(),
        ensures
            final(self).wf(),
            Self::placement(old(self)@, Self::chosen_layout(old(self)@), final(self)@, r),
    {
        if self.frames.len() == 0 {
            return self.place(Some(Vec::new()));
        }
        let sizes = self.sizes();
        let layout = pack_into_bin(&sizes, self.width, self.height);
        self.place(layout)
    }

    /// The handle and the rectangle of the frame registered first under
    /// `source` and `frame_index`. There is none before the atlas is
    /// built, nor for a key that was never registered.
    pub fn lookup(&self, source: &str, frame_index: usize) -> (r: Result<AtlasEntry, NotFound>)
        requires
            self.wf(),
        ensures
            match r {
                Ok(entry) => self@.entries is Some && is_first(
                    self@.keys,
                    (source@, frame_index as nat),
                    entry.id as int,
                ) && entry == self@.entries.unwrap()[entry.id as int],
                Err(_) => self@.entries is None || !self@.keys.contains(
                    (source@, frame_index as nat),
                ),
            },
    {
        if !self.built {
            return Err(NotFound);
        }
        let wanted = String::from_str(source);
        let ghost key = (source@, frame_index as nat);
        let mut i: usize = 0;
        while i < self.keys.len()
            invariant
                i <= self.keys@.len(),
                self.wf(),
                self.built,
                wanted@ == source@,
                key == (source@, frame_index as nat),
                forall|j: int| 0 <= j < i ==> self@.keys[j] != key,
            decreases self.keys@.len() - i,
        {
            if self.keys[i].1 == frame_index && self.keys[i].0 == wanted {
                assert(self@.keys[i as int] == key);
                return Ok(self.entries[i]);
            }
            assert(self@.keys[i as int] != key);
            i = i + 1;
        }
        Err(NotFound)
    }
}

/// Every successful build packs the atlas: each registered frame has a
/// rectangle of its own size on the canvas, no two rectangles share a
/// pixel, and the handles are the numbers from 0 up to the number of
/// registered frames, each given once.
pub proof fn lemma_build_packs(
    before: AtlasView,
    layout: Option<Seq<(u32, u32)>>,
    after: AtlasView,
    r: BMResult<()>,
)
    requires
        before.well_formed(),
        Atlas::placement(before, layout, after, r),
        r is Ok,
    ensures
        after.entries is Some,
        after.well_formed(),
        ({
            let entries = after.entries.unwrap();
            let n = before.frames.len();
            &&& entries.len() == n
            &&& forall|i: int|
                0 <= i < n ==> inside(
                    (#[trigger] entries[i]).rect,
                    before.width as int,
                    before.height as int,
                )
            &&& forall|i: int, j: int|
                0 <= i < n && 0 <= j < n && i != j ==> apart(
                    (#[trigger] entries[i]).rect,
                    (#[trigger] entries[j]).rect,
                )
            &&& forall|i: int| 0 <= i < n ==> (#[trigger] entries[i]).id < n
            &&& forall|i: int, j: int|
                0 <= i < n && 0 <= j < n && i != j ==> (#[trigger] entries[i]).id != (
                #[trigger] entries[j]).id
            &&& forall|id: int| 0 <= id < n ==> (#[trigger] entries[id]).id == id
        }),
{
    let corners = layout.unwrap();
    let rects = placed(before.sizes(), corners);
    let entries = after.entries.unwrap();
    assert(entries == entries_of(rects));
    assert(rects_of(entries) =~= rects);
    assert forall|i: int| 0 <= i < entries.len() implies (#[trigger] entries[i]).rect.width
        == after.frames[i].width && entries[i].rect.height == after.frames[i].height by {
        assert(before.frames[i].well_formed());
    }
    assert(after.packed_as(entries));
    assert forall|i: int, j: int| 0 <= i < entries.len() && 0 <= j < entries.len() && i != j implies apart(
        (#[trigger] entries[i]).rect,
        (#[trigger] entries[j]).rect,
    ) by {
        if i < j {
            assert(apart(rects[i], rects[j]));
        } else {
            assert(apart(rects[j], rects[i]));
        }
    }
    assert forall|i: int| 0 <= i < entries.len() implies inside(
        (#[trigger] entries[i]).rect,
        before.width as int,
        before.height as int,
    ) by {
        assert(inside(rects[i], before.width as int, before.height as int));
    }
}

/// No build succeeds while two registered frames are each wider than half
/// the canvas and taller than half the canvas, whatever their total area.
pub proof fn lemma_two_large_frames_never_fit(
    before: AtlasView,
    layout: Option<Seq<(u32, u32)>>,
    after: AtlasView,
    r: BMResult<()>,
    i: int,
    j: int,
)
    requires
        before.well_formed(),
        Atlas::placement(before, layout, after, r),
        0 <= i < j < before.frames.len(),
        2 * before.frames[i].width > before.width,
        2 * before.frames[i].height > before.height,
        2 * before.frames[j].width > before.width,
        2 * before.frames[j].height > before.height,
    ensures
        r is Err,
{
    if r is Ok {
        let rects = placed(before.sizes(), layout.unwrap());
        assert(before.frames[i].well_formed());
        assert(before.frames[j].well_formed());
        assert(inside(rects[i], before.width as int, before.height as int));
        assert(inside(rects[j], before.width as int, before.height as int));
        assert(apart(rects[i], rects[j]));
        lemma_two_large_rects_collide(
            rects[i],
            rects[j],
            before.width as int,
            before.height as int,
        );
    }
}

/// Whether an asset of this name is the bitmap of a part.
pub open spec fn is_part_bitmap(name: Seq<char>) -> bool {
    "PART"@.is_prefix_of(name) && ".BMP"@.is_suffix_of(name)
}

/// Whether an asset of this name is the bitmap of a part.
fn names_part_bitmap(name: &str) -> (b: bool)
    ensures
        b == is_part_bitmap(name@),
{
    starts_with(name, "PART") && ends_with(name, ".BMP")
}

/// The message for a store without the palette asset.
pub open spec fn missing_palette_text() -> Seq<char> {
    "Missing palette"@
}

/// The assets of `before` and those of the archive `data`, whose record
/// offsets `index` lists under `key`; or what is wrong.
pub open spec fn loaded(
    index: Map<Seq<char>, Seq<u32>>,
    key: Seq<char>,
    data: Seq<u8>,
    before: Assets,
) -> Result<Assets, Fault> {
    if !index.contains_key(key) {
        Err(Fault(no_record_text(key)))
    } else {
        match extraction(data, index[key], before).1 {
            Some(fault) => Err(fault),
            None => Ok(extraction(data, index[key], before).0),
        }
    }
}

/// The atlas `start` after the part bitmaps among the assets `names` have
/// been decoded, given the palette `colours` and registered, in the order
/// of `names`; or the first thing wrong with one of them.
pub open spec fn parts_registered(
    names: Seq<Seq<char>>,
    payloads: Map<Seq<char>, Seq<u8>>,
    colours: Seq<Color>,
    start: AtlasView,
) -> Result<AtlasView, Fault>
    decreases names.len(),
{
    if names.len() == 0 {
        Ok(start)
    } else {
        match parts_registered(names.drop_last(), payloads, colours, start) {
            Err(fault) => Err(fault),
            Ok(atlas) => if !is_part_bitmap(names.last()) {
                Ok(atlas)
            } else {
                match decoded_frames(payloads[names.last()]) {
                    Err(fault) => Err(fault),
                    Ok(frames) => Ok(
                        atlas.with_bitmap(names.last(), with_palettes(frames, colours)),
                    ),
                }
            },
        }
    }
}

/// What one more name adds to the atlas of the names before it.
proof fn lemma_parts_step(
    names: Seq<Seq<char>>,
    payloads: Map<Seq<char>, Seq<u8>>,
    colours: Seq<Color>,
    start: AtlasView,
    n: int,
)
    requires
        0 <= n < names.len(),
    ensures
        parts_registered(names.take(n + 1), payloads, colours, start) == (match parts_registered(
            names.take(n),
            payloads,
            colours,
            start,
        ) {
            Err(fault) => Err(fault),
            Ok(atlas) => if !is_part_bitmap(names[n]) {
                Ok(atlas)
            } else {
                match decoded_frames(payloads[names[n]]) {
                    Err(fault) => Err(fault),
                    Ok(frames) => Ok(atlas.with_bitmap(names[n], with_palettes(frames, colours))),
                }
            },
        }),
{
    assert(names.take(n + 1).drop_last() =~= names.take(n));
    assert(names.take(n + 1).last() == names[n]);
}

/// A fault among the first names is the fault of any longer run.
proof fn lemma_parts_fault_stays(
    names: Seq<Seq<char>>,
    payloads: Map<Seq<char>, Seq<u8>>,
    colours: Seq<Color>,
    start: AtlasView,
    n: int,
)
    requires
        0 <= n <= names.len(),
        parts_registered(names.take(n), payloads, colours, start) is Err,
    ensures
        parts_registered(names, payloads, colours, start) == parts_registered(
            names.take(n),
            payloads,
            colours,
            start,
        ),
    decreases names.len(),
{
    if n < names.len() {
        assert(names.drop_last().take(n) =~= names.take(n));
        lemma_parts_fault_stays(names.drop_last(), payloads, colours, start, n);
    } else {
        assert(names.take(n) =~= names);
    }
}

/// The atlas that the part bitmaps of a game make: the index and its two
/// archives are read, the palette asset "TIM.PAL" is decoded, and every
/// asset whose name starts with "PART" and ends with ".BMP" is decoded,
/// given the palette and registered, in the order in which the assets
/// first arrived. Nothing is placed yet.
pub open spec fn assembled(index: Seq<u8>, first: Seq<u8>, second: Seq<u8>) -> Result<
    AtlasView,
    Fault,
> {
    match parsed_index(index) {
        Err(fault) => Err(fault),
        Ok(listed) => match loaded(
            listed,
            uppercase_of("RESOURCE.001"@),
            first,
            Assets::empty(),
        ) {
            Err(fault) => Err(fault),
            Ok(some) => match loaded(listed, uppercase_of("RESOURCE.002"@), second, some) {
                Err(fault) => Err(fault),
                Ok(assets) => if !assets.payloads.contains_key("TIM.PAL"@) {
                    Err(Fault(missing_palette_text()))
                } else {
                    match decoded_colours(assets.payloads["TIM.PAL"@]) {
                        Err(fault) => Err(fault),
                        Ok(colours) => if !usable_colours(colours) {
                            Err(Fault(unusable_palette_text()))
                        } else {
                            parts_registered(
                                assets.names,
                                assets.payloads,
                                colours,
                                AtlasView::blank(ATLAS_SIZE as nat, ATLAS_SIZE as nat),
                            )
                        },
                    }
                },
            },
        },
    }
}

/// Decodes the bitmap `data`, gives it `palette` and registers it under
/// `name`.
fn register(atlas: &mut Atlas, name: &str, data: &[u8], palette: &Palette) -> (r: BMResult<()>)
    requires
        old(atlas).wf(),
        palette.usable(),
    ensures
        final(atlas).wf(),
        match decoded_frames(data@) {
            Ok(frames) => r is Ok && final(atlas)@ == old(atlas)@.with_bitmap(
                name@,
                with_palettes(frames, palette@),
            ),
            Err(fault) => fails_with(r, fault) && final(atlas)@ == old(atlas)@,
        },
{
    let mut bitmap = TIM3Bitmap::new(name, data)?;
    bitmap.set_palette(palette)?;
    atlas.add_bitmap(bitmap);
    Ok(())
}

/// Assembles the atlas of part bitmaps from the bytes of the resource
/// index and of the archives "RESOURCE.001" and "RESOURCE.002".
pub fn test_atlas(index: &[u8], resource_001: &[u8], resource_002: &[u8]) -> (r: BMResult<Atlas>)
    ensures
        match assembled(index@, resource_001@, resource_002@) {
            Ok(view) => r matches Ok(atlas) && atlas.wf() && atlas@ == view,
            Err(fault) => fails_with(r, fault),
        },
{
    let mut resource_map = TIM3ResourceMap::new(index)?;
    resource_map.add_archive("RESOURCE.001", resource_001)?;
    resource_map.add_archive("RESOURCE.002", resource_002)?;
    let palette_data = match resource_map.get("TIM.PAL") {
        Some(data) => data,
        None => {
            return Err(BMError::loading("Missing palette"));
        },
    };
    let palette = TIM3Palette::new("TIM.PAL", palette_data.as_ref())?.get_palette()?;
    let mut atlas = Atlas::new()?;
    let names = resource_map.keys();
    let ghost assets = resource_map.assets();
    let ghost blank = AtlasView::blank(ATLAS_SIZE as nat, ATLAS_SIZE as nat);
    let ghost goal = assembled(index@, resource_001@, resource_002@);
    proof {
        resource_map.lemma_names_are_keys();
        assert(assets.names.take(0) =~= Seq::<Seq<char>>::empty());
        assert(goal == parts_registered(assets.names, assets.payloads, palette@, blank));
        assert forall|j: int| 0 <= j < assets.names.len() implies assets.payloads.contains_key(
            #[trigger] assets.names[j],
        ) by {
            assert(assets.names.contains(assets.names[j]));
        }
    }
    let mut i: usize = 0;
    while i < names.len()
        invariant
            i <= names@.len(),
            resource_map.wf(),
            assets == resource_map.assets(),
            names@.len() == assets.names.len(),
            forall|j: int| 0 <= j < names@.len() ==> (#[trigger] names@[j])@ == assets.names[j],
            forall|j: int|
                0 <= j < assets.names.len() ==> assets.payloads.contains_key(
                    #[trigger] assets.names[j],
                ),
            palette.usable(),
            atlas.wf(),
            goal == assembled(index@, resource_001@, resource_002@),
            goal == parts_registered(assets.names, assets.payloads, palette@, blank),
            parts_registered(assets.names.take(i as int), assets.payloads, palette@, blank) == Ok::<
                AtlasView,
                Fault,
            >(atlas@),
        decreases names@.len() - i,
    {
        let name = names[i].as_str();
        proof {
            assert(name@ == assets.names[i as int]);
            lemma_parts_step(assets.names, assets.payloads, palette@, blank, i as int);
            if is_part_bitmap(name@) && decoded_frames(assets.payloads[name@]) is Err {
                lemma_parts_fault_stays(assets.names, assets.payloads, palette@, blank, i + 1);
            }
        }
        if names_part_bitmap(name) {
            // Every listed name has a payload, so the bitmap is there.
            let bitmap_data = match resource_map.get(name) {
                Some(data) => data,
                None => {
                    return Err(BMError::loading("Missing bitmap"));
                },
            };
            register(&mut atlas, name, bitmap_data.as_ref(), &palette)?;
        }
        i = i + 1;
    }
    assert(assets.names.take(i as int) =~= assets.names);
    Ok(atlas)
}

} // verus!
