//! Palettes and indexed bitmaps: their containers decoded into colours and
//! frames of 8-bit pixels.

use vstd::prelude::*;
use vstd::slice::slice_to_vec;
use vstd::string::StringExecFns;

use crate::error::{fails_with, BMError, BMResult, Fault};
use crate::wire::{truncated, u16_le, u32_be, u32_le, u64_be, Cursor};

verus! {

/// The four bytes "RIFF", read as a big-endian number.
pub const RIFF_MAGIC: u32 = 0x52494646;

/// The eight bytes "PAL data", read as a big-endian number.
pub const PAL_DATA_MAGIC: u64 = 0x50414c2064617461;

/// The only palette format version that is understood.
pub const PALETTE_VERSION: u16 = 0x300;

/// The four bytes "BMP:", read as a big-endian number.
pub const BITMAP_MAGIC: u32 = 0x424d503a;

/// The most colours that an 8-bit pixel can tell apart.
pub const MAX_COLOURS: usize = 256;

/// A colour as red, green and blue.
#[derive(Clone, Copy, Debug, PartialEq, Eq, Structural)]
pub struct Color {
    pub r: u8,
    pub g: u8,
    pub b: u8,
}

/// A palette as it is stored: a name and its colours in index order.
#[derive(Debug)]
pub struct TIM3Palette {
    pub name: String,
    pub colours: Vec<Color>,
}

/// A palette that can be attached to frames. Pixel value `i` stands for
/// the colour at position `i`.
#[derive(Debug)]
pub struct Palette {
    pub colours: Vec<Color>,
}

/// The message for a palette container that does not start with "RIFF".
pub open spec fn riff_text() -> Seq<char> {
    "Expected RIFF for palette"@
}

/// The message for a palette container whose form type is not "PAL data".
pub open spec fn pal_data_text() -> Seq<char> {
    "Expected 'PAL data' for palette"@
}

/// The message for a palette of another format version.
pub open spec fn version_text() -> Seq<char> {
    "Expected version 300 RIFF palette"@
}

/// The message for a palette container that declares more than
/// `MAX_COLOURS` entries.
pub open spec fn too_many_colours_text() -> Seq<char> {
    "Palette declares more than 256 colours"@
}

/// The message for a palette that no frame can take.
pub open spec fn unusable_palette_text() -> Seq<char> {
    "Palette must hold between 1 and 256 colours"@
}

/// The number of entries that a palette container declares.
pub open spec fn palette_count(data: Seq<u8>) -> int {
    u16_le(data, 22)
}

/// Entry `i` of a palette container, without its flags byte.
pub open spec fn palette_entry(data: Seq<u8>, i: int) -> Color {
    Color { r: data[24 + 4 * i], g: data[25 + 4 * i], b: data[26 + 4 * i] }
}

/// The first thing wrong with the fixed part of a palette container, which
/// ends with the entry count. The two size fields, at offsets 4 and 16, are
/// not interpreted.
pub open spec fn palette_header_fault(data: Seq<u8>) -> Option<Fault> {
    if data.len() < 4 {
        Some(truncated())
    } else if u32_be(data, 0) != RIFF_MAGIC {
        Some(Fault(riff_text()))
    } else if data.len() < 16 {
        Some(truncated())
    } else if u64_be(data, 8) != PAL_DATA_MAGIC {
        Some(Fault(pal_data_text()))
    } else if data.len() < 22 {
        Some(truncated())
    } else if u16_le(data, 20) != PALETTE_VERSION {
        Some(Fault(version_text()))
    } else if data.len() < 24 {
        Some(truncated())
    } else {
        None
    }
}

/// The colours of a palette container, or the first thing wrong with it.
/// A container may declare at most `MAX_COLOURS` entries, whether or not
/// the entries are there.
pub open spec fn decoded_colours(data: Seq<u8>) -> Result<Seq<Color>, Fault> {
    match palette_header_fault(data) {
        Some(fault) => Err(fault),
        None => if palette_count(data) > MAX_COLOURS {
            Err(Fault(too_many_colours_text()))
        } else if data.len() < 24 + 4 * palette_count(data) {
            Err(truncated())
        } else {
            Ok(palette_entries(data, palette_count(data) as nat))
        },
    }
}

/// The first `n` entries of a palette container.
pub open spec fn palette_entries(data: Seq<u8>, n: nat) -> Seq<Color> {
    Seq::new(n, |i: int| palette_entry(data, i))
}

/// Whether a palette of these colours can be attached to frames.
pub open spec fn usable_colours(colours: Seq<Color>) -> bool {
    1 <= colours.len() <= MAX_COLOURS
}

impl TIM3Palette {
    /// Whether `r` is what decoding `data` under `name` has to give.
    pub open spec fn decodes(name: Seq<char>, data: Seq<u8>, r: BMResult<TIM3Palette>) -> bool {
        match decoded_colours(data) {
            Ok(colours) => r matches Ok(p) && p.name@ == name && p.colours@ == colours
                && p.colours@.len() <= MAX_COLOURS,
            Err(fault) => fails_with(r, fault),
        }
    }

    /// Reads the fixed part of a palette container and gives the number of
    /// entries that follow it.
    fn header(stream: &mut Cursor) -> (r: BMResult<u16>)
        requires
            old(stream).pos == 0,
        ensures
            final(stream).data == old(stream).data,
            match r {
                Ok(count) => palette_header_fault(old(stream).data@) is None && count
                    == palette_count(old(stream).data@) && final(stream).pos == 24
                    && old(stream).data@.len() >= 24,
                Err(e) => palette_header_fault(old(stream).data@) is Some && fails_with(
                    r,
                    palette_header_fault(old(stream).data@).unwrap(),
                ),
            },
    {
        let magic = stream.u32_be()?;
        if magic != RIFF_MAGIC {
            return Err(BMError::loading("Expected RIFF for palette"));
        }
        stream.u32_le()?;
        let form = stream.u64_be()?;
        if form != PAL_DATA_MAGIC {
            return Err(BMError::loading("Expected 'PAL data' for palette"));
        }
        stream.u32_le()?;
        let version = stream.u16_le()?;
        if version != PALETTE_VERSION {
            return Err(BMError::loading("Expected version 300 RIFF palette"));
        }
        stream.u16_le()
    }

    /// Decodes a palette container of at most `MAX_COLOURS` entries.
    pub fn new(name: &str, data: &[u8]) -> (r: BMResult<TIM3Palette>)
        ensures
            Self::decodes(name@, data@, r),
    {
        let mut stream = Cursor::new(data, 0);
        let count = Self::header(&mut stream)?;
        if count as usize > MAX_COLOURS {
            return Err(BMError::loading("Palette declares more than 256 colours"));
        }
        let mut colours: Vec<Color> = Vec::new();
        let mut i: u16 = 0;
        while i < count
            invariant
                i <= count,
                count == palette_count(data@),
                count <= MAX_COLOURS,
                stream.data == data,
                stream.pos == 24 + 4 * i,
                stream.pos <= data@.len(),
                palette_header_fault(data@) is None,
                colours@ == palette_entries(data@, i as nat),
            decreases count - i,
        {
            let entry = stream.take(4)?;
            let colour = Color { r: entry[0], g: entry[1], b: entry[2] };
            assert(colour == palette_entry(data@, i as int));
            colours.push(colour);
            assert(colours@ =~= palette_entries(data@, (i + 1) as nat));
            i = i + 1;
        }
        Ok(TIM3Palette { name: String::from_str(name), colours })
    }

    /// The palette in the form that frames take, if it has at least one
    /// colour and at most `MAX_COLOURS`.
    pub fn get_palette(&self) -> (r: BMResult<Palette>)
        ensures
            match r {
                Ok(p) => usable_colours(self.colours@) && p@ == self.colours@,
                Err(e) => !usable_colours(self.colours@) && e.message()
                    == unusable_palette_text(),
            },
    {
        if self.colours.len() == 0 || self.colours.len() > MAX_COLOURS {
            return Err(BMError::loading("Palette must hold between 1 and 256 colours"));
        }
        Ok(Palette { colours: slice_to_vec(self.colours.as_slice()) })
    }
}

impl Palette {
    /// The colours in index order.
    pub open spec fn view(&self) -> Seq<Color> {
        self.colours@
    }

    /// Whether frames can take this palette.
    pub open spec fn usable(&self) -> bool {
        usable_colours(self@)
    }

    /// The colour that pixel value `index` stands for.
    pub open spec fn spec_color(&self, index: u8) -> Option<Color> {
        colour_of(self@, index)
    }

    /// Whether frames can take this palette.
    pub fn is_usable(&self) -> (b: bool)
        ensures
            b == self.usable(),
    {
        1 <= self.colours.len() && self.colours.len() <= MAX_COLOURS
    }

    /// The colour that pixel value `index` stands for, if the palette
    /// reaches that far. The palette is not changed.
    pub fn color(&self, index: u8) -> (c: Option<Color>)
        ensures
            c == self.spec_color(index),
    {
        if (index as usize) < self.colours.len() {
            Some(self.colours[index as usize])
        } else {
            None
        }
    }

    /// A copy of the palette.
    pub fn duplicate(&self) -> (p: Palette)
        ensures
            p@ == self@,
    {
        Palette { colours: slice_to_vec(self.colours.as_slice()) }
    }
}

/// What a frame holds, as plain mathematics.
pub struct FrameView {
    pub width: nat,
    pub height: nat,
    /// One palette index per pixel, row after row, without padding.
    pub pixels: Seq<u8>,
    /// The colours that the pixel values stand for, once a palette is attached.
    pub palette: Option<Seq<Color>>,
}

impl FrameView {
    /// Both dimensions are positive and fit in 32 bits, and every pixel is
    /// present.
    pub open spec fn well_formed(self) -> bool {
        &&& 0 < self.width <= u32::MAX
        &&& 0 < self.height <= u32::MAX
        &&& self.pixels.len() == self.width * self.height
    }

    /// The same frame with `colours` attached.
    pub open spec fn with_palette(self, colours: Seq<Color>) -> FrameView {
        FrameView { palette: Some(colours), ..self }
    }

    /// The pixel value in column `x` of row `y`.
    pub open spec fn pixel(self, x: int, y: int) -> u8 {
        self.pixels[y * self.width + x]
    }
}

/// The same frames, each with `colours` attached.
pub open spec fn with_palettes(frames: Seq<FrameView>, colours: Seq<Color>) -> Seq<FrameView> {
    Seq::new(frames.len(), |i: int| frames[i].with_palette(colours))
}

/// One image of a bitmap: a grid of 8-bit palette indices.
#[derive(Debug)]
pub struct Frame {
    width: u32,
    height: u32,
    pixels: Vec<u8>,
    palette: Option<Palette>,
}

/// The message for a frame whose data and dimensions disagree.
pub open spec fn frame_mismatch_text() -> Seq<char> {
    "Frame data does not match its dimensions"@
}

impl Frame {
    /// The frame as plain mathematics.
    pub closed spec fn view(&self) -> FrameView {
        FrameView {
            width: self.width as nat,
            height: self.height as nat,
            pixels: self.pixels@,
            palette: match self.palette {
                Some(p) => Some(p@),
                None => None,
            },
        }
    }

    /// Both dimensions are positive and every pixel is present.
    pub open spec fn wf(&self) -> bool {
        self@.well_formed()
    }

    /// A frame without a palette, if the dimensions are positive and
    /// `pixels` holds exactly one byte for each pixel.
    pub fn new(width: u32, height: u32, pixels: Vec<u8>) -> (r: BMResult<Frame>)
        ensures
            match r {
                Ok(f) => f.wf() && f@ == (FrameView {
                    width: width as nat,
                    height: height as nat,
                    pixels: pixels@,
                    palette: None,
                }),
                Err(e) => (width == 0 || height == 0 || pixels@.len() != width * height)
                    && e.message() == frame_mismatch_text(),
            },
    {
        assert(width * height <= 0xffff_ffff * 0xffff_ffff) by (nonlinear_arith)
            requires
                width <= 0xffff_ffff,
                height <= 0xffff_ffff,
        ;
        let area: u64 = (width as u64) * (height as u64);
        if width == 0 || height == 0 || pixels.len() as u64 != area {
            return Err(BMError::loading("Frame data does not match its dimensions"));
        }
        Ok(Frame { width, height, pixels, palette: None })
    }

    /// The number of columns.
    pub fn width(&self) -> (w: u32)
        ensures
            w == self@.width,
    {
        self.width
    }

    /// The number of rows.
    pub fn height(&self) -> (h: u32)
        ensures
            h == self@.height,
    {
        self.height
    }

    /// The pixel values, row after row.
    pub fn pixels(&self) -> (p: &[u8])
        ensures
            p@ == self@.pixels,
    {
        self.pixels.as_slice()
    }

    /// The attached palette, if there is one.
    pub fn palette(&self) -> (p: Option<&Palette>)
        ensures
            match p {
                Some(palette) => self@.palette == Some(palette@),
                None => self@.palette is None,
            },
    {
        self.palette.as_ref()
    }

    /// The colour of the pixel in column `x` of row `y`: the palette's entry
    /// for the pixel's value. There is none outside the frame, without a
    /// palette, or for a value that the palette does not reach.
    pub fn color_at(&self, x: u32, y: u32) -> (c: Option<Color>)
        requires
            self.wf(),
        ensures
            c == if x < self@.width && y < self@.height && self@.palette is Some {
                colour_of(self@.palette.unwrap(), self@.pixel(x as int, y as int))
            } else {
                None
            },
    {
        if x >= self.width || y >= self.height {
            return None;
        }
        match &self.palette {
            None => None,
            Some(palette) => {
                assert(0 <= y * self.width && y * self.width + x < self.width * self.height)
                    by (nonlinear_arith)
                    requires
                        0 <= x < self.width,
                        0 <= y < self.height,
                ;
                let len = self.pixels.len();
                assert(len == self.width * self.height);
                let at = (y as usize) * (self.width as usize) + (x as usize);
                palette.color(self.pixels[at])
            },
        }
    }

    /// Attaches `palette`, in place of any palette attached before.
    fn bind(&mut self, palette: Palette)
        ensures
            final(self)@ == old(self)@.with_palette(palette@),
    {
        self.palette = Some(palette);
    }
}

/// The message for a bitmap container that does not start with "BMP:".
pub open spec fn bitmap_magic_text() -> Seq<char> {
    "Invalid magic ID for TIM3Bitmap"@
}

/// The message for a frame offset that lies inside the container's header.
pub open spec fn frame_offset_text() -> Seq<char> {
    "Frame offset lies before the bitmap body"@
}

/// The length that a bitmap container declares for its body.
pub open spec fn bitmap_body_len(data: Seq<u8>) -> int {
    u32_le(data, 4)
}

/// The body of a bitmap container: what follows the 8-byte outer header.
pub open spec fn bitmap_body(data: Seq<u8>) -> Seq<u8> {
    data.subrange(8, 8 + bitmap_body_len(data))
}

/// The first thing wrong with a bitmap container up to its frame count.
pub open spec fn bitmap_header_fault(data: Seq<u8>) -> Option<Fault> {
    if data.len() < 4 {
        Some(truncated())
    } else if u32_be(data, 0) != BITMAP_MAGIC {
        Some(Fault(bitmap_magic_text()))
    } else if data.len() < 8 {
        Some(truncated())
    } else if data.len() < 8 + bitmap_body_len(data) {
        Some(truncated())
    } else if bitmap_body_len(data) < 4 {
        Some(truncated())
    } else {
        None
    }
}

/// The number of frames that a bitmap body declares.
pub open spec fn frame_count(body: Seq<u8>) -> int {
    u16_le(body, 2)
}

/// Entry `i` of the frame offset table. It counts from the start of the
/// outer header, 8 bytes before the body.
pub open spec fn frame_offset(body: Seq<u8>, i: int) -> int {
    u32_le(body, 4 + 4 * i)
}

/// The size that the frame header at `at` declares for the frame's data.
pub open spec fn frame_data_len(body: Seq<u8>, at: int) -> int {
    u32_le(body, at + 5)
}

/// What is wrong with the frame whose header starts at `at` in the body.
pub open spec fn frame_fault_at(body: Seq<u8>, at: int) -> Option<Fault> {
    if at + 9 > body.len() {
        Some(truncated())
    } else if at + 9 + frame_data_len(body, at) > body.len() {
        Some(truncated())
    } else if u16_le(body, at) == 0 || u16_le(body, at + 2) == 0 || frame_data_len(body, at)
        != u16_le(body, at) * u16_le(body, at + 2) {
        Some(Fault(frame_mismatch_text()))
    } else {
        None
    }
}

/// The frame whose header starts at `at` in the body.
pub open spec fn frame_at(body: Seq<u8>, at: int) -> FrameView {
    FrameView {
        width: u16_le(body, at) as nat,
        height: u16_le(body, at + 2) as nat,
        pixels: body.subrange(at + 9, at + 9 + frame_data_len(body, at)),
        palette: None,
    }
}

/// What is wrong with entry `i` of the offset table or with its frame.
pub open spec fn listed_frame_fault(body: Seq<u8>, i: int) -> Option<Fault> {
    if 8 + 4 * i > body.len() {
        Some(truncated())
    } else if frame_offset(body, i) < 8 {
        Some(Fault(frame_offset_text()))
    } else {
        frame_fault_at(body, frame_offset(body, i) - 8)
    }
}

/// The frame that entry `i` of the offset table points to.
pub open spec fn listed_frame(body: Seq<u8>, i: int) -> FrameView {
    frame_at(body, frame_offset(body, i) - 8)
}

/// The first thing wrong among the first `n` entries of the offset table.
pub open spec fn first_frame_fault(body: Seq<u8>, n: nat) -> Option<Fault>
    decreases n,
{
    if n == 0 {
        None
    } else {
        match first_frame_fault(body, (n - 1) as nat) {
            Some(fault) => Some(fault),
            None => listed_frame_fault(body, n - 1),
        }
    }
}

/// The frames of the first `n` entries of the offset table, in table order.
pub open spec fn listed_frames(body: Seq<u8>, n: nat) -> Seq<FrameView> {
    Seq::new(n, |i: int| listed_frame(body, i))
}

/// The frames of a bitmap container, or the first thing wrong with it.
pub open spec fn decoded_frames(data: Seq<u8>) -> Result<Seq<FrameView>, Fault> {
    match bitmap_header_fault(data) {
        Some(fault) => Err(fault),
        None => {
            let body = bitmap_body(data);
            match first_frame_fault(body, frame_count(body) as nat) {
                Some(fault) => Err(fault),
                None => Ok(listed_frames(body, frame_count(body) as nat)),
            }
        },
    }
}

/// A fault among the first entries is the fault of any longer run.
proof fn lemma_first_frame_fault_stays(body: Seq<u8>, n: nat, m: nat)
    requires
        n <= m,
        first_frame_fault(body, n) is Some,
    ensures
        first_frame_fault(body, m) == first_frame_fault(body, n),
    decreases m,
{
    if n < m {
        lemma_first_frame_fault_stays(body, n, (m - 1) as nat);
    }
}

/// Frame `i` of a decoded bitmap is the frame that entry `i` of the offset
/// table points to, 8 bytes before the place that the entry names in the
/// body, wherever the other entries point.
pub proof fn lemma_frames_follow_offset_table(
    name: Seq<char>,
    data: Seq<u8>,
    r: BMResult<TIM3Bitmap>,
    i: int,
)
    requires
        TIM3Bitmap::decodes(name, data, r),
        r is Ok,
        0 <= i < r->Ok_0.frames@.len(),
    ensures
        r->Ok_0.frames@.len() == frame_count(bitmap_body(data)),
        r->Ok_0.frames@[i]@ == frame_at(
            bitmap_body(data),
            u32_le(bitmap_body(data), 4 + 4 * i) - 8,
        ),
{
    let bitmap = r->Ok_0;
    let body = bitmap_body(data);
    let n = frame_count(body) as nat;
    assert(decoded_frames(data) is Ok);
    assert(bitmap_header_fault(data) is None);
    assert(first_frame_fault(body, n) is None);
    assert(bitmap.frames_view() == listed_frames(body, n));
    assert(bitmap.frames_view().len() == bitmap.frames@.len());
    assert(bitmap.frames_view()[i] == bitmap.frames@[i]@);
    assert(listed_frames(body, n)[i] == listed_frame(body, i));
}

/// A named bitmap: its frames in the order of the offset table.
#[derive(Debug)]
pub struct TIM3Bitmap {
    pub name: String,
    pub frames: Vec<Frame>,
}

impl TIM3Bitmap {
    /// The frames as plain mathematics.
    pub open spec fn frames_view(&self) -> Seq<FrameView> {
        Seq::new(self.frames@.len(), |i: int| self.frames@[i]@)
    }

    /// Every frame is well formed.
    pub open spec fn wf(&self) -> bool {
        forall|i: int| 0 <= i < self.frames@.len() ==> (#[trigger] self.frames@[i]).wf()
    }

    /// Whether `r` is what decoding `data` under `name` has to give.
    pub open spec fn decodes(name: Seq<char>, data: Seq<u8>, r: BMResult<TIM3Bitmap>) -> bool {
        match decoded_frames(data) {
            Ok(frames) => r matches Ok(b) && b.name@ == name && b.frames_view() == frames
                && b.wf(),
            Err(fault) => fails_with(r, fault),
        }
    }

    /// Reads the frame whose header starts at `at` in the body.
    fn frame(body: &[u8], at: usize) -> (r: BMResult<Frame>)
        ensures
            match frame_fault_at(body@, at as int) {
                None => r matches Ok(f) && f@ == frame_at(body@, at as int) && f.wf(),
                Some(fault) => fails_with(r, fault),
            },
    {
        let mut stream = Cursor::new(body, at);
        let width = stream.u16_le()?;
        let height = stream.u16_le()?;
        stream.u8()?;
        let size = stream.u32_le()?;
        let pixels = stream.take(size as usize)?;
        Frame::new(width as u32, height as u32, slice_to_vec(pixels))
    }

    /// Reads the body of a bitmap container and the number of its frames.
    fn header<'a>(data: &'a [u8]) -> (r: BMResult<(&'a [u8], u16)>)
        ensures
            match r {
                Ok((body, count)) => bitmap_header_fault(data@) is None && body@ == bitmap_body(
                    data@,
                ) && count == frame_count(body@) && body@.len() >= 4,
                Err(e) => bitmap_header_fault(data@) is Some && fails_with(
                    r,
                    bitmap_header_fault(data@).unwrap(),
                ),
            },
    {
        let mut stream = Cursor::new(data, 0);
        let magic = stream.u32_be()?;
        if magic != BITMAP_MAGIC {
            return Err(BMError::loading("Invalid magic ID for TIM3Bitmap"));
        }
        let size = stream.u32_le()?;
        let body = stream.take(size as usize)?;
        let mut table = Cursor::new(body, 0);
        table.u16_le()?;
        let count = table.u16_le()?;
        Ok((body, count))
    }

    /// Decodes a bitmap container. Frame `i` of the result is the frame that
    /// entry `i` of the offset table points to, whatever the order of the
    /// offsets.
    pub fn new(name: &str, data: &[u8]) -> (r: BMResult<TIM3Bitmap>)
        ensures
            Self::decodes(name@, data@, r),
    {
        let (body, count) = Self::header(data)?;
        let mut table = Cursor::new(body, 4);
        let mut frames: Vec<Frame> = Vec::new();
        let mut i: u16 = 0;
        while i < count
            invariant
                i <= count,
                count == frame_count(body@),
                bitmap_header_fault(data@) is None,
                body@ == bitmap_body(data@),
                table.data == body,
                table.pos == 4 + 4 * i,
                table.pos <= body@.len(),
                first_frame_fault(body@, i as nat) is None,
                frames@.len() == i,
                forall|j: int| 0 <= j < i ==> (#[trigger] frames@[j])@ == listed_frame(body@, j),
                forall|j: int| 0 <= j < i ==> (#[trigger] frames@[j]).wf(),
            decreases count - i,
        {
            proof {
                if listed_frame_fault(body@, i as int) is Some {
                    lemma_first_frame_fault_stays(body@, (i + 1) as nat, count as nat);
                }
            }
            let offset = table.u32_le()?;
            if offset < 8 {
                return Err(BMError::loading("Frame offset lies before the bitmap body"));
            }
            let frame = Self::frame(body, (offset - 8) as usize)?;
            frames.push(frame);
            i = i + 1;
        }
        let bitmap = TIM3Bitmap { name: String::from_str(name), frames };
        assert(bitmap.frames_view() =~= listed_frames(body@, count as nat));
        Ok(bitmap)
    }

    /// Attaches `palette` to every frame, or fails and changes nothing if
    /// frames cannot take it.
    pub fn set_palette(&mut self, palette: &Palette) -> (r: BMResult<()>)
        ensures
            final(self).name == old(self).name,
            final(self).frames@.len() == old(self).frames@.len(),
            old(self).wf() ==> final(self).wf(),
            match r {
                Ok(_) => palette.usable() && final(self).frames_view() == with_palettes(
                    old(self).frames_view(),
                    palette@,
                ) && forall|i: int|
                    0 <= i < old(self).frames@.len() ==> (#[trigger] final(self).frames@[i])@
                        == old(self).frames@[i]@.with_palette(palette@),
                Err(e) => !palette.usable() && e.message() == unusable_palette_text()
                    && final(self).frames == old(self).frames,
            },
    {
        if !palette.is_usable() {
            return Err(BMError::loading("Palette must hold between 1 and 256 colours"));
        }
        let mut i: usize = 0;
        while i < self.frames.len()
            invariant
                self.name == old(self).name,
                self.frames@.len() == old(self).frames@.len(),
                i <= self.frames@.len(),
                forall|j: int|
                    0 <= j < i ==> (#[trigger] self.frames@[j])@ == old(
                        self,
                    ).frames@[j]@.with_palette(palette@),
                forall|j: int|
                    i <= j < self.frames@.len() ==> (#[trigger] self.frames@[j]) == old(
                        self,
                    ).frames@[j],
            decreases self.frames@.len() - i,
        {
            self.frames[i].bind(palette.duplicate());
            i = i + 1;
        }
        assert(self.frames_view() =~= with_palettes(old(self).frames_view(), palette@));
        assert(old(self).wf() ==> self.wf()) by {
            if old(self).wf() {
                assert forall|j: int| 0 <= j < self.frames@.len() implies (
                #[trigger] self.frames@[j]).wf() by {
                    assert(old(self).frames@[j].wf());
                }
            }
        }
        Ok(())
    }
}

/// The colour at position `index` of `colours`, if there is one.
pub open spec fn colour_of(colours: Seq<Color>, index: u8) -> Option<Color> {
    if index < colours.len() {
        Some(colours[index as int])
    } else {
        None
    }
}

/// Two decodings of the same bytes agree: both fail, or both give the same
/// colours in the same order.
pub proof fn lemma_palette_decoding_repeats(
    name: Seq<char>,
    data: Seq<u8>,
    first: BMResult<TIM3Palette>,
    second: BMResult<TIM3Palette>,
)
    requires
        TIM3Palette::decodes(name, data, first),
        TIM3Palette::decodes(name, data, second),
    ensures
        first is Ok <==> second is Ok,
        first is Ok ==> first->Ok_0.colours@ == second->Ok_0.colours@,
        first is Ok ==> first->Ok_0.colours@.len() == second->Ok_0.colours@.len(),
        first is Ok ==> forall|index: u8|
            colour_of(first->Ok_0.colours@, index) == colour_of(second->Ok_0.colours@, index),
{
}

} // verus!
