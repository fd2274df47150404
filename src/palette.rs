//! Palettes of six-bit colour triples, and the grid of swatches that shows
//! one: sixteen swatches of 32 by 32 pixels to a row.
use vstd::prelude::*;

verus! {

/// An eight-bit colour.
#[derive(Debug, Clone, Copy, PartialEq, Eq, Structural)]
pub struct Color {
    pub red: u8,
    pub green: u8,
    pub blue: u8,
}

/// A six-bit channel value widened to eight bits by a factor of four; the
/// product is taken modulo 256.
pub open spec fn widen_channel(v: u8) -> u8 {
    ((4 * v) % 256) as u8
}

/// The colour whose stored triple starts at `p`.
pub open spec fn color_at(b: Seq<u8>, p: int) -> Color {
    Color { red: widen_channel(b[p]), green: widen_channel(b[p + 1]), blue: widen_channel(b[p + 2]) }
}

/// Reads the colour triple at `pos`, or `None` where fewer than three bytes
/// remain.
pub fn read_color(data: &[u8], pos: usize) -> (r: Option<Color>)
    requires
        pos <= data@.len(),
    ensures
        pos + 3 <= data@.len() ==> r == Some(color_at(data@, pos as int)),
        pos + 3 > data@.len() ==> r is None,
{
    if data.len() - pos < 3 {
        return None;
    }
    let red = data[pos].wrapping_mul(4);
    let green = data[pos + 1].wrapping_mul(4);
    let blue = data[pos + 2].wrapping_mul(4);
    Some(Color { red, green, blue })
}

/// Reads the colours of a palette one at a time.
pub struct PaletteColorReader<'a> {
    source: &'a [u8],
    pos: usize,
}

impl<'a> View for PaletteColorReader<'a> {
    /// The palette bytes, and where the next colour starts.
    type V = (Seq<u8>, int);

    closed spec fn view(&self) -> (Seq<u8>, int) {
        (self.source@, self.pos as int)
    }
}

impl<'a> PaletteColorReader<'a> {
    /// The read position lies inside the palette.
    pub closed spec fn wf(&self) -> bool {
        self.pos <= self.source@.len()
    }

    /// A reader placed on the first colour of `source`.
    pub fn new(source: &'a [u8]) -> (r: PaletteColorReader<'a>)
        ensures
            r.wf(),
            r@ == (source@, 0int),
    {
        PaletteColorReader { source, pos: 0 }
    }

    /// The next colour, or `None` once fewer than three bytes remain.
    pub fn next(&mut self) -> (r: Option<Color>)
        requires
            old(self).wf(),
        ensures
            final(self).wf(),
            final(self)@.0 == old(self)@.0,
            old(self)@.1 + 3 <= old(self)@.0.len() ==> {
                &&& r == Some(color_at(old(self)@.0, old(self)@.1))
                &&& final(self)@.1 == old(self)@.1 + 3
            },
            old(self)@.1 + 3 > old(self)@.0.len() ==> r is None && final(self)@ == old(self)@,
    {
        let r = read_color(self.source, self.pos);
        if self.source.len() - self.pos >= 3 {
            self.pos = self.pos + 3;
        }
        r
    }
}

/// The colours of a whole palette: one for each full triple, in order.
pub fn read_palette(data: &[u8]) -> (r: Vec<Color>)
    ensures
        r@.len() == data@.len() / 3,
        forall|i: int| 0 <= i < r@.len() ==> #[trigger] r@[i] == color_at(data@, 3 * i),
{
    let mut reader = PaletteColorReader::new(data);
    let mut colors: Vec<Color> = Vec::new();
    loop
        invariant
            reader.wf(),
            reader@.0 == data@,
            reader@.1 == 3 * colors@.len(),
            forall|i: int| 0 <= i < colors@.len() ==> #[trigger] colors@[i] == color_at(data@, 3 * i),
        ensures
            colors@.len() == data@.len() / 3,
            forall|i: int| 0 <= i < colors@.len() ==> #[trigger] colors@[i] == color_at(data@, 3 * i),
        decreases data@.len() - reader@.1,
    {
        match reader.next() {
            Some(c) => colors.push(c),
            None => break,
        }
    }
    colors
}

/// Swatches to a row.
pub const SWATCHES_PER_ROW: u32 = 16;

/// Width and height of one swatch, in pixels.
pub const SWATCH_SIDE: u32 = 32;

/// The most colours whose grid has a height that fits a `u32`.
pub const MAX_COLORS: usize = 0x7FFF_FFF0;

/// Rows that `count` swatches fill.
pub open spec fn rows_for(count: nat) -> nat {
    (count + 15) / 16
}

/// Width and height of the grid that shows `count` colours: sixteen
/// swatches across, and as many rows as the colours fill.
pub fn palette_dimensions(count: usize) -> (r: (u32, u32))
    requires
        count <= MAX_COLORS,
    ensures
        r.0 == 512,
        r.1 as nat == 32 * rows_for(count as nat),
{
    let rows = (count + 15) / 16;
    (SWATCHES_PER_ROW * SWATCH_SIDE, SWATCH_SIDE * (rows as u32))
}

/// Top-left corner of the swatch of colour `index`.
pub fn swatch_origin(index: usize) -> (r: (u32, u32))
    requires
        index < MAX_COLORS,
    ensures
        r.0 as nat == 32 * (index as nat % 16),
        r.1 as nat == 32 * (index as nat / 16),
{
    let column = (index % 16) as u32;
    let row = (index / 16) as u32;
    (SWATCH_SIDE * column, SWATCH_SIDE * row)
}

} // verus!
