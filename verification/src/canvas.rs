//! The pixel grid that frames are composited on.

use vstd::arithmetic::div_mod::{lemma_fundamental_div_mod, lemma_fundamental_div_mod_converse};
use vstd::prelude::*;

use crate::blocks::{
    join, lemma_chain_in_prefix, lemma_sub_blocks_end, read_blocks, sub_blocks,
};
use crate::color::{Color, ColorTable};
use crate::color::null_palette;
use crate::error::{eof, DecodeError, Failure, LZWError};
use crate::lzw::{lemma_drain_unfolds, LZWIterator, Lzw, MAX_MIN_CODE_SIZE, MIN_CODE_SIZE};
use crate::reader::Reader;

verus! {

/// The mathematical content of a [`Canvas`]: a grid of colors, stored row by
/// row.
pub struct Raster {
    pub width: nat,
    pub height: nat,
    pub pixels: Seq<Color>,
}

impl Raster {
    /// The grid holds exactly one color for each cell.
    pub open spec fn wf(self) -> bool {
        self.pixels.len() == self.width * self.height
    }

    /// The color in row `row` and column `col`.
    pub open spec fn at(self, row: int, col: int) -> Color {
        self.pixels[row * self.width + col]
    }

    /// The row that the pixel of index `i` lies in.
    pub open spec fn row_of(self, i: int) -> int {
        i / (self.width as int)
    }

    /// The column that the pixel of index `i` lies in.
    pub open spec fn col_of(self, i: int) -> int {
        i % (self.width as int)
    }

    /// A grid of one color.
    pub open spec fn filled(color: Color, width: nat, height: nat) -> Raster {
        Raster { width, height, pixels: Seq::new(width * height, |i: int| color) }
    }

    /// Whether the cell of index `i` lies in the rectangle of the given size
    /// whose upper left corner is at row `top` and column `left`.
    pub open spec fn in_rect(self, i: int, top: nat, left: nat, width: nat, height: nat) -> bool {
        &&& top <= self.row_of(i) < top + height
        &&& left <= self.col_of(i) < left + width
    }

    /// The pixel of index `i` after `src` was drawn with its upper left corner
    /// at row `top` and column `left`: the pixel of `src` that falls on it, if
    /// there is one and it is opaque, else what was there.
    pub open spec fn blit_pixel(self, src: Raster, top: nat, left: nat, i: int) -> Color {
        let over = src.at(self.row_of(i) - top, self.col_of(i) - left);
        if self.in_rect(i, top, left, src.width, src.height) && over.3 {
            over
        } else {
            self.pixels[i]
        }
    }

    /// This grid with `src` drawn onto it at the given offset. What of `src`
    /// falls outside the grid is cut off.
    pub open spec fn blit(self, src: Raster, top: nat, left: nat) -> Raster {
        Raster {
            pixels: Seq::new(self.pixels.len(), |i: int| self.blit_pixel(src, top, left, i)),
            ..self
        }
    }

    /// This grid with the given rectangle made transparent. What of the
    /// rectangle falls outside the grid is cut off.
    pub open spec fn clear_rect(self, top: nat, left: nat, width: nat, height: nat) -> Raster {
        Raster {
            pixels: Seq::new(
                self.pixels.len(),
                |i: int|
                    if self.in_rect(i, top, left, width, height) {
                        Color::spec_transparent()
                    } else {
                        self.pixels[i]
                    },
            ),
            ..self
        }
    }
}

impl Raster {
    /// How many columns of a rectangle that starts at column `left` lie
    /// within the grid.
    pub open spec fn copy_width(self, left: nat, width: nat) -> nat {
        if left >= self.width {
            0
        } else if width < self.width - left {
            width
        } else {
            (self.width - left) as nat
        }
    }

    /// How many rows of a rectangle that starts at row `top` lie within the
    /// grid.
    pub open spec fn copy_height(self, top: nat, height: nat) -> nat {
        if top >= self.height {
            0
        } else if height < self.height - top {
            height
        } else {
            (self.height - top) as nat
        }
    }

    /// For row `k` of a rectangle, the range of indices that its visible part
    /// has in a grid of the rectangle's own width, and the range that it
    /// falls on in this grid.
    pub open spec fn row_span(self, top: nat, left: nat, width: nat, k: nat) -> (
        nat,
        nat,
        nat,
        nat,
    ) {
        let copy = self.copy_width(left, width);
        (
            k * width,
            k * width + copy,
            (top + k) * self.width + left,
            (top + k) * self.width + left + copy,
        )
    }

    /// The spans of all rows of a rectangle that are visible in this grid,
    /// from the top down.
    pub open spec fn row_spans(self, top: nat, left: nat, width: nat, height: nat) -> Seq<
        (nat, nat, nat, nat),
    > {
        if self.copy_width(left, width) == 0 {
            Seq::empty()
        } else {
            Seq::new(
                self.copy_height(top, height),
                |k: int| self.row_span(top, left, width, k as nat),
            )
        }
    }
}

/// The pixels `pixels`, with those before index `bound` replaced by what
/// `f` gives for their index.
pub open spec fn repainted(pixels: Seq<Color>, f: spec_fn(int) -> Color, bound: int) -> Seq<
    Color,
> {
    Seq::new(
        pixels.len(),
        |i: int|
            if i < bound {
                f(i)
            } else {
                pixels[i]
            },
    )
}

/// The numbers of a span as mathematical integers.
pub open spec fn span_of(t: (usize, usize, usize, usize)) -> (nat, nat, nat, nat) {
    (t.0 as nat, t.1 as nat, t.2 as nat, t.3 as nat)
}

/// Whether `rows` holds the spans `spans`, one by one.
pub open spec fn spans_match(
    rows: Seq<(usize, usize, usize, usize)>,
    spans: Seq<(nat, nat, nat, nat)>,
) -> bool {
    &&& rows.len() == spans.len()
    &&& forall|k: int| 0 <= k < rows.len() ==> span_of(#[trigger] rows[k]) == spans[k]
}

/// An index lies before row `row` exactly if it is less than the index that
/// the row starts at.
pub proof fn lemma_row_bound(width: nat, i: int, row: int)
    requires
        width > 0,
    ensures
        i < row * width <==> i / (width as int) < row,
{
    lemma_fundamental_div_mod(i, width as int);
    let q = i / (width as int);
    let r = i % (width as int);
    assert(i < row * width <==> q < row) by (nonlinear_arith)
        requires
            i == width * q + r,
            0 <= r < width,
    ;
}

/// The cell in row `row` and column `col` of a grid of width `width` has the
/// index `row * width + col`, and no other cell has it.
pub proof fn lemma_cell(width: nat, row: int, col: int)
    requires
        0 <= col < width,
    ensures
        (row * width + col) / (width as int) == row,
        (row * width + col) % (width as int) == col,
{
    lemma_fundamental_div_mod_converse(row * width + col, width as int, row, col);
}

/// An index within a grid lies in one of its rows and columns.
pub proof fn lemma_index_in_grid(width: nat, height: nat, i: int)
    requires
        0 <= i < width * height,
    ensures
        width > 0,
        0 <= i / (width as int) < height,
        0 <= i % (width as int) < width,
        i == (i / (width as int)) * width + i % (width as int),
{
    assert(width > 0) by (nonlinear_arith)
        requires
            0 <= i < width * height,
    ;
    lemma_fundamental_div_mod(i, width as int);
    let q = i / (width as int);
    let r = i % (width as int);
    assert(0 <= q < height) by (nonlinear_arith)
        requires
            i == width * q + r,
            0 <= r < width,
            0 <= i < width * height,
    ;
    assert(width * q == q * width) by (nonlinear_arith);
}

/// The row of an interlaced image in which row `row` of the picture is
/// stored. Rows are stored in four passes: every eighth row from row 0 on,
/// every eighth from row 4 on, every fourth from row 2 on, and every second
/// from row 1 on.
pub open spec fn interlaced_source_row(row: int, height: int) -> int {
    if row % 8 == 0 {
        row / 8
    } else if row % 4 == 0 {
        (height + 7) / 8 + (row - 4) / 8
    } else if row % 2 == 0 {
        (height + 3) / 4 + (row - 2) / 4
    } else {
        (height + 1) / 2 + row / 2
    }
}

/// The row of the picture that an interlaced image of `height` rows stores in
/// its row `stored`: the passes one after another, each from the top down.
pub open spec fn interlaced_row(stored: int, height: int) -> int {
    if stored < (height + 7) / 8 {
        8 * stored
    } else if stored < (height + 3) / 4 {
        8 * (stored - (height + 7) / 8) + 4
    } else if stored < (height + 1) / 2 {
        4 * (stored - (height + 3) / 4) + 2
    } else {
        2 * (stored - (height + 1) / 2) + 1
    }
}

/// Every row of the picture is stored within the image, and the order of
/// the passes leads back from the row it is stored in to the row itself.
pub proof fn lemma_interlace_finds_row(height: int, row: int)
    requires
        0 <= row < height,
    ensures
        0 <= interlaced_source_row(row, height) < height,
        interlaced_row(interlaced_source_row(row, height), height) == row,
{
    let h8 = (height + 7) / 8;
    let h4 = (height + 3) / 4;
    let h2 = (height + 1) / 2;
    assert(h8 <= h4 <= h2 <= height);
    if row % 8 == 0 {
        assert(row / 8 < h8);
    } else if row % 4 == 0 {
        assert(row % 8 == 4);
        assert(h8 + (row - 4) / 8 < h4);
    } else if row % 2 == 0 {
        assert(row % 4 == 2);
        assert(h4 + (row - 2) / 4 < h2);
    } else {
        assert(h2 + row / 2 < height);
    }
}

/// Deinterlacing undoes the order of the passes: the row that is stored as
/// row `stored` belongs within the picture, and is found again from the place
/// it has there.
pub proof fn lemma_deinterlace_inverts(height: int, stored: int)
    requires
        0 <= stored < height,
    ensures
        0 <= interlaced_row(stored, height) < height,
        interlaced_source_row(interlaced_row(stored, height), height) == stored,
{
    let h8 = (height + 7) / 8;
    let h4 = (height + 3) / 4;
    let h2 = (height + 1) / 2;
    let row = interlaced_row(stored, height);
    if stored < h8 {
        assert(row == 8 * stored && row % 8 == 0 && row / 8 == stored);
    } else if stored < h4 {
        assert(row == 8 * (stored - h8) + 4);
        assert(row % 8 == 4 && row % 4 == 0 && (row - 4) / 8 == stored - h8);
    } else if stored < h2 {
        assert(row == 4 * (stored - h4) + 2);
        assert(row % 8 != 0 && row % 4 == 2 && row % 2 == 0 && (row - 2) / 4 == stored - h4);
    } else {
        assert(row == 2 * (stored - h2) + 1);
        assert(row % 8 != 0 && row % 4 != 0 && row % 2 == 1 && row / 2 == stored - h2);
    }
}

impl Raster {
    /// The picture that this grid stores in interlaced order.
    pub open spec fn deinterlaced(self) -> Raster {
        Raster {
            pixels: Seq::new(
                self.pixels.len(),
                |i: int|
                    self.at(
                        interlaced_source_row(self.row_of(i), self.height as int),
                        self.col_of(i),
                    ),
            ),
            ..self
        }
    }
}

/// Whether a pixel of index `index` can be given a color: it is the
/// transparent index, or the palette holds it.
pub open spec fn paintable(index: u8, palette: Seq<Color>, transparency: Option<usize>) -> bool {
    transparency == Some(index as usize) || index < palette.len()
}

/// The color of a pixel of index `index`: transparent for the transparent
/// index, else what the palette holds.
pub open spec fn color_of(index: u8, palette: Seq<Color>, transparency: Option<usize>) -> Color {
    if transparency == Some(index as usize) {
        Color::spec_transparent()
    } else {
        palette[index as int]
    }
}

/// The colors of a run of indices.
pub open spec fn colors_of(indices: Seq<u8>, palette: Seq<Color>, transparency: Option<usize>) -> Seq<
    Color,
> {
    Seq::new(indices.len(), |i: int| color_of(indices[i], palette, transparency))
}

/// The frame that decompressed indices make. An index without a color fails
/// the frame, then a failure of the decompressor, then a number of indices
/// that is not the frame's area.
pub open spec fn paint(
    indices: Seq<u8>,
    failure: Option<LZWError>,
    palette: Seq<Color>,
    transparency: Option<usize>,
    width: nat,
    height: nat,
) -> Result<Raster, Failure> {
    if exists|i: int| 0 <= i < indices.len() && !paintable(#[trigger] indices[i], palette, transparency) {
        Err(Failure::ColorTableOutOfBounds)
    } else if let Some(e) = failure {
        Err(Failure::LZWError(e))
    } else if indices.len() < width * height {
        Err(Failure::FrameUnderflow)
    } else if indices.len() > width * height {
        Err(Failure::FrameOverflow)
    } else {
        Ok(Raster { width, height, pixels: colors_of(indices, palette, transparency) })
    }
}

/// The null palette gives every index a color: a frame that is painted with
/// it never fails for want of a color, and its pixels are opaque black or
/// transparent.
pub proof fn lemma_null_palette_paints(
    indices: Seq<u8>,
    failure: Option<LZWError>,
    transparency: Option<usize>,
    width: nat,
    height: nat,
)
    ensures
        paint(indices, failure, null_palette(), transparency, width, height) != Err::<
            Raster,
            Failure,
        >(Failure::ColorTableOutOfBounds),
        forall|i: int|
            0 <= i < indices.len() ==> {
                let color = #[trigger] colors_of(
                    indices,
                    null_palette(),
                    transparency,
                )[i];
                color == Color::spec_default() || color == Color::spec_transparent()
            },
{
}

/// The frame stored at `pos`, and the position behind it: one byte with the
/// minimum code size, then the LZW data as a chain of sub-blocks. The chain
/// is read to its end before the code size is looked at.
pub open spec fn frame_at(
    data: Seq<u8>,
    pos: int,
    palette: Seq<Color>,
    transparency: Option<usize>,
    width: nat,
    height: nat,
) -> Result<(Raster, int), Failure> {
    if pos < 0 || pos >= data.len() {
        Err(eof())
    } else {
        match sub_blocks(data, pos + 1) {
            None => Err(eof()),
            Some((blocks, end)) => {
                let min_code_size = data[pos];
                if !(MIN_CODE_SIZE <= min_code_size <= MAX_MIN_CODE_SIZE) {
                    Err(Failure::LZWError(LZWError::CodeSizeOutOfRange(min_code_size)))
                } else {
                    let (indices, failure) = Lzw::initial(
                        blocks.flatten(),
                        min_code_size as nat,
                    ).drain();
                    match paint(indices, failure, palette, transparency, width, height) {
                        Ok(raster) => Ok((raster, end)),
                        Err(e) => Err(e),
                    }
                }
            },
        }
    }
}

/// A frame whose data lies within a prefix of the input reads the same
/// there.
pub proof fn lemma_frame_in_prefix(
    data: Seq<u8>,
    pos: int,
    palette: Seq<Color>,
    transparency: Option<usize>,
    width: nat,
    height: nat,
    cut: int,
)
    requires
        0 <= pos,
        cut <= data.len(),
        sub_blocks(data, pos + 1) matches Some((_, end)) && end <= cut,
    ensures
        frame_at(data.take(cut), pos, palette, transparency, width, height) == frame_at(
            data,
            pos,
            palette,
            transparency,
            width,
            height,
        ),
{
    lemma_sub_blocks_end(data, pos + 1);
    lemma_chain_in_prefix(data, pos + 1, cut);
}

/// Whether `f` leaves every cell outside the given rectangle as it is in
/// `g`.
pub open spec fn keeps_outside(
    g: Raster,
    f: spec_fn(int) -> Color,
    top: nat,
    left: nat,
    width: nat,
    height: nat,
) -> bool {
    forall|i: int|
        0 <= i < g.pixels.len() && !g.in_rect(i, top, left, width, height) ==> #[trigger] f(i)
            == g.pixels[i]
}

/// Where no row of the rectangle is visible, nothing changes.
proof fn lemma_nothing_visible(
    g: Raster,
    f: spec_fn(int) -> Color,
    top: nat,
    left: nat,
    width: nat,
    height: nat,
)
    requires
        g.wf(),
        keeps_outside(g, f, top, left, width, height),
        g.row_spans(top, left, width, height).len() == 0,
    ensures
        Seq::new(g.pixels.len(), f) == g.pixels,
{
    assert forall|i: int| 0 <= i < g.pixels.len() implies f(i) == g.pixels[i] by {
        lemma_index_in_grid(g.width, g.height, i);
    }
    assert(Seq::new(g.pixels.len(), f) =~= g.pixels);
}

/// The cells above the rectangle stay as they are.
proof fn lemma_rows_above(
    g: Raster,
    f: spec_fn(int) -> Color,
    top: nat,
    left: nat,
    width: nat,
    height: nat,
)
    requires
        g.wf(),
        g.width > 0,
        top <= g.height,
        keeps_outside(g, f, top, left, width, height),
    ensures
        repainted(g.pixels, f, (top * g.width) as int) == g.pixels,
{
    assert forall|i: int| 0 <= i < g.pixels.len() && i < top * g.width implies f(i)
        == g.pixels[i] by {
        lemma_row_bound(g.width, i, top as int);
    }
    assert(repainted(g.pixels, f, (top * g.width) as int) =~= g.pixels);
}

/// Once the last visible row is done, the whole rectangle is.
proof fn lemma_rows_below(
    g: Raster,
    f: spec_fn(int) -> Color,
    top: nat,
    left: nat,
    width: nat,
    height: nat,
)
    requires
        g.wf(),
        g.width > 0,
        keeps_outside(g, f, top, left, width, height),
    ensures
        repainted(g.pixels, f, ((top + g.copy_height(top, height)) * g.width) as int) == Seq::new(
            g.pixels.len(),
            f,
        ),
{
    let bound = top + g.copy_height(top, height);
    assert forall|i: int| 0 <= i < g.pixels.len() && i >= bound * g.width implies f(i)
        == g.pixels[i] by {
        lemma_row_bound(g.width, i, bound as int);
        lemma_index_in_grid(g.width, g.height, i);
    }
    assert(repainted(g.pixels, f, (bound * g.width) as int) =~= Seq::new(g.pixels.len(), f));
}

/// In a row of the rectangle, the cells left of it stay as they are.
proof fn lemma_left_margin(
    g: Raster,
    f: spec_fn(int) -> Color,
    top: nat,
    left: nat,
    width: nat,
    height: nat,
    row: nat,
)
    requires
        g.wf(),
        left < g.width,
        keeps_outside(g, f, top, left, width, height),
    ensures
        repainted(g.pixels, f, (row * g.width) as int) == repainted(
            g.pixels,
            f,
            (row * g.width + left) as int,
        ),
{
    assert forall|i: int|
        0 <= i < g.pixels.len() && row * g.width <= i < row * g.width + left implies f(i)
        == g.pixels[i] by {
        lemma_cell(g.width, row as int, i - row * g.width);
    }
    assert(repainted(g.pixels, f, (row * g.width) as int) =~= repainted(
        g.pixels,
        f,
        (row * g.width + left) as int,
    ));
}

/// In a row of the rectangle, the cells right of it stay as they are.
proof fn lemma_right_margin(
    g: Raster,
    f: spec_fn(int) -> Color,
    top: nat,
    left: nat,
    width: nat,
    height: nat,
    row: nat,
)
    requires
        g.wf(),
        left < g.width,
        keeps_outside(g, f, top, left, width, height),
    ensures
        repainted(g.pixels, f, (row * g.width + left + g.copy_width(left, width)) as int)
            == repainted(g.pixels, f, ((row + 1) * g.width) as int),
{
    let from = row * g.width + left + g.copy_width(left, width);
    assert((row + 1) * g.width == row * g.width + g.width) by (nonlinear_arith);
    assert forall|i: int| 0 <= i < g.pixels.len() && from <= i < (row + 1) * g.width implies f(i)
        == g.pixels[i] by {
        lemma_cell(g.width, row as int, i - row * g.width);
    }
    assert(repainted(g.pixels, f, from as int) =~= repainted(
        g.pixels,
        f,
        ((row + 1) * g.width) as int,
    ));
}

/// The spans of a visible row lie within the two buffers.
proof fn lemma_span_fits(g: Raster, top: nat, left: nat, width: nat, height: nat, k: nat)
    requires
        g.wf(),
        k < g.row_spans(top, left, width, height).len(),
    ensures
        left < g.width,
        top + k < g.height,
        k < height,
        0 < g.copy_width(left, width) <= width,
        left + g.copy_width(left, width) <= g.width,
        k * width + g.copy_width(left, width) <= width * height,
        (top + k) * g.width + left + g.copy_width(left, width) <= g.pixels.len(),
        g.row_spans(top, left, width, height).len() == g.copy_height(top, height),
        g.row_spans(top, left, width, height)[k as int] == g.row_span(top, left, width, k),
{
    let copy = g.copy_width(left, width);
    assert(k * width + copy <= width * height) by (nonlinear_arith)
        requires
            k < height,
            copy <= width,
    ;
    assert((top + k) * g.width + left + copy <= g.width * g.height) by (nonlinear_arith)
        requires
            top + k < g.height,
            left + copy <= g.width,
    ;
}

/// `n / d`, rounded up.
fn div_ceil(n: usize, d: usize) -> (q: usize)
    requires
        d == 2 || d == 4 || d == 8,
    ensures
        q == (n + d - 1) / (d as int),
{
    if n % d == 0 {
        n / d
    } else {
        n / d + 1
    }
}

/// A rectangle of colors.
pub struct Canvas {
    pub width: usize,
    pub height: usize,
    pub data: Vec<Color>,
}

impl View for Canvas {
    type V = Raster;

    open spec fn view(&self) -> Raster {
        Raster { width: self.width as nat, height: self.height as nat, pixels: self.data@ }
    }
}

impl Default for Canvas {
    /// A canvas without pixels.
    fn default() -> (c: Self)
        ensures
            c.wf(),
            c@ == (Raster { width: 0, height: 0, pixels: Seq::empty() }),
    {
        Canvas { width: 0, height: 0, data: Vec::new() }
    }
}

impl Clone for Canvas {
    /// A canvas with the same pixels.
    fn clone(&self) -> (c: Self)
        ensures
            c@ == self@,
    {
        let data = self.data.clone();
        assert(data@ =~= self.data@);
        Canvas { width: self.width, height: self.height, data }
    }
}

impl Canvas {
    /// The buffer holds one color for each cell.
    pub open spec fn wf(&self) -> bool {
        self@.wf()
    }

    /// A canvas of the given size, every pixel of which is `color`.
    pub fn from_bg_color(color: Color, width: usize, height: usize) -> (c: Self)
        requires
            width * height <= usize::MAX,
        ensures
            c.wf(),
            c@ == Raster::filled(color, width as nat, height as nat),
    {
        let data = vec![color; width * height];
        assert(data@ =~= Raster::filled(color, width as nat, height as nat).pixels);
        Canvas { width, height, data }
    }

    /// Reads a frame of the given size: the minimum code size, then the
    /// sub-blocks of LZW data, whose indices are turned into colors through
    /// `palette`, the index `transparency_index` into the transparent color.
    ///
    /// After a failure the position is unspecified.
    pub fn from_gif_data(
        rdr: &mut Reader,
        palette: &ColorTable,
        transparency_index: Option<usize>,
        width: usize,
        height: usize,
    ) -> (r: Result<Self, DecodeError>)
        requires
            old(rdr).wf(),
            width * height <= usize::MAX,
        ensures
            final(rdr).wf(),
            final(rdr).data == old(rdr).data,
            match frame_at(
                old(rdr).data@,
                old(rdr).pos as int,
                palette@,
                transparency_index,
                width as nat,
                height as nat,
            ) {
                Ok((raster, end)) => r matches Ok(c) && c.wf() && c@ == raster && final(rdr).pos
                    == end,
                Err(failure) => r matches Err(e) && e@ == failure,
            },
    {
        let min_code_size = rdr.read_u8()?;
        let blocks = read_blocks(rdr)?;
        let bytes = join(&blocks);
        let mut lzw = match LZWIterator::new(bytes, min_code_size) {
            Ok(it) => it,
            Err(e) => {
                return Err(DecodeError::LZWError(e));
            },
        };
        let ghost start = lzw@;
        let ghost seen = Seq::<u8>::empty();
        let ghost pal = palette@;
        let ghost goal = paint(
            start.drain().0,
            start.drain().1,
            pal,
            transparency_index,
            width as nat,
            height as nat,
        );
        let mut data: Vec<Color> = Vec::new();
        assert(seen + start.drain().0 =~= start.drain().0);
        loop
            invariant_except_break
                start.drain() == (seen + lzw@.drain().0, lzw@.drain().1),
            invariant
                lzw.wf(),
                start.wf(),
                rdr.wf(),
                rdr.data == old(rdr).data,
                pal == palette@,
                goal == paint(
                    start.drain().0,
                    start.drain().1,
                    pal,
                    transparency_index,
                    width as nat,
                    height as nat,
                ),
                frame_at(
                    old(rdr).data@,
                    old(rdr).pos as int,
                    pal,
                    transparency_index,
                    width as nat,
                    height as nat,
                ) == match goal {
                    Ok(raster) => Ok::<(Raster, int), Failure>((raster, rdr.pos as int)),
                    Err(e) => Err(e),
                },
                forall|i: int| 0 <= i < seen.len() ==> paintable(#[trigger] seen[i], pal, transparency_index),
                data@ == colors_of(seen, pal, transparency_index),
            ensures
                start.drain() == (seen, None::<LZWError>),
            decreases lzw@.remaining(),
        {
            let ghost state = lzw@;
            proof {
                lemma_drain_unfolds(state);
            }
            match lzw.next() {
                None => {
                    assert(seen + Seq::<u8>::empty() =~= seen);
                    break ;
                },
                Some(Err(e)) => {
                    assert(seen + Seq::<u8>::empty() =~= seen);
                    return Err(DecodeError::LZWError(e));
                },
                Some(Ok(sequence)) => {
                    let ghost rest = lzw@.drain().0;
                    assert(start.drain().0 =~= seen + sequence@ + rest);
                    let mut j: usize = 0;
                    while j < sequence.len()
                        invariant
                            j <= sequence.len(),
                            pal == palette@,
                            start.wf(),
                            rdr.wf(),
                            rdr.data == old(rdr).data,
                            goal == paint(
                                start.drain().0,
                                start.drain().1,
                                pal,
                                transparency_index,
                                width as nat,
                                height as nat,
                            ),
                            frame_at(
                                old(rdr).data@,
                                old(rdr).pos as int,
                                pal,
                                transparency_index,
                                width as nat,
                                height as nat,
                            ) == match goal {
                                Ok(raster) => Ok::<(Raster, int), Failure>((raster, rdr.pos as int)),
                                Err(e) => Err(e),
                            },
                            start.drain().0 == seen + sequence@ + rest,
                            forall|i: int|
                                0 <= i < seen.len() ==> paintable(
                                    #[trigger] seen[i],
                                    pal,
                                    transparency_index,
                                ),
                            forall|i: int|
                                0 <= i < j ==> paintable(
                                    #[trigger] sequence@[i],
                                    pal,
                                    transparency_index,
                                ),
                            data@ == colors_of(
                                seen + sequence@.take(j as int),
                                pal,
                                transparency_index,
                            ),
                        decreases sequence.len() - j,
                    {
                        let index: usize = sequence[j] as usize;
                        let color = match transparency_index {
                            Some(i) if i == index => Color::transparent(),
                            _ => {
                                proof {
                                    if index >= pal.len() {
                                        assert(start.drain().0[seen.len() + j] == sequence@[j as int]);
                                        assert(!paintable(
                                            start.drain().0[seen.len() + j],
                                            pal,
                                            transparency_index,
                                        ));
                                    }
                                }
                                palette.get(index)?
                            },
                        };
                        data.push(color);
                        assert(data@ =~= colors_of(
                            seen + sequence@.take(j + 1),
                            pal,
                            transparency_index,
                        )) by {
                            assert(seen + sequence@.take(j + 1) =~= (seen + sequence@.take(
                                j as int,
                            )).push(sequence@[j as int]));
                        }
                        j += 1;
                    }
                    proof {
                        assert(sequence@.take(j as int) =~= sequence@);
                        seen = seen + sequence@;
                    }
                },
            }
        }

        let expected_size: usize = width * height;
        if data.len() < expected_size {
            return Err(DecodeError::FrameUnderflow);
        } else if data.len() > expected_size {
            return Err(DecodeError::FrameOverflow);
        }
        Ok(Canvas { width, height, data })
    }

    /// The picture that this canvas stores in interlaced order.
    pub fn deinterlaced(&self) -> (c: Self)
        requires
            self.wf(),
        ensures
            c.wf(),
            c@ == self@.deinterlaced(),
    {
        let ghost target = self@.deinterlaced().pixels;
        let mut dest: Vec<Color> = Vec::new();
        if self.width == 0 {
            assert(self.data@.len() == 0) by (nonlinear_arith)
                requires
                    self.data@.len() == self.width * self.height,
                    self.width == 0,
            ;
            assert(dest@ =~= target);
            return Canvas { width: self.width, height: self.height, data: dest };
        }
        let height8 = div_ceil(self.height, 8);
        let height4 = div_ceil(self.height, 4);
        let height2 = div_ceil(self.height, 2);

        let mut dest_row_num: usize = 0;
        while dest_row_num < self.height
            invariant
                self.wf(),
                self.width > 0,
                height8 == (self.height + 7) / 8,
                height4 == (self.height + 3) / 4,
                height2 == (self.height + 1) / 2,
                target == self@.deinterlaced().pixels,
                dest_row_num <= self.height,
                dest@ == target.take(dest_row_num * self.width),
                dest_row_num * self.width <= self.data@.len(),
            decreases self.height - dest_row_num,
        {
            let source_row_num = if dest_row_num % 8 == 0 {
                dest_row_num / 8
            } else if dest_row_num % 4 == 0 {
                height8 + (dest_row_num - 4) / 8
            } else if dest_row_num % 2 == 0 {
                height4 + (dest_row_num - 2) / 4
            } else {
                height2 + (dest_row_num / 2)
            };
            assert(source_row_num == interlaced_source_row(
                dest_row_num as int,
                self.height as int,
            ));
            assert(self.data@.len() == self.data.len() <= usize::MAX);
            assert(source_row_num * self.width + self.width <= self.data@.len()) by (nonlinear_arith)
                requires
                    source_row_num < self.height,
                    self.data@.len() == self.width * self.height,
            ;
            assert((dest_row_num + 1) * self.width == dest_row_num * self.width + self.width
                <= self.data@.len()) by (nonlinear_arith)
                requires
                    dest_row_num < self.height,
                    self.data@.len() == self.width * self.height,
            ;
            let i = source_row_num * self.width;
            let ghost before = dest@;
            dest.extend_from_slice(
                vstd::slice::slice_subrange(self.data.as_slice(), i, i + self.width),
            );
            proof {
                let w = self.width as nat;
                assert forall|idx: int| 0 <= idx < dest@.len() implies dest@[idx] == target.take(
                    (dest_row_num + 1) * self.width,
                )[idx] by {
                    if idx >= before.len() {
                        lemma_cell(w, dest_row_num as int, idx - dest_row_num * w);
                    }
                }
                assert(dest@ =~= target.take((dest_row_num + 1) * self.width));
            }
            dest_row_num += 1;
        }
        assert(self.height * self.width == self.width * self.height) by (nonlinear_arith);
        assert(dest@ =~= target);
        Canvas { width: self.width, height: self.height, data: dest }
    }

    /// The spans of the rows of a rectangle that are visible on this canvas.
    /// Each span is the range of indices of the row's visible part in a
    /// buffer of the rectangle's own width, followed by the range that it
    /// falls on in this canvas; both ranges exclude their end.
    pub fn blit_iter(&self, top: usize, left: usize, width: usize, height: usize) -> (rows: Vec<
        (usize, usize, usize, usize),
    >)
        requires
            self.wf(),
            width * height <= usize::MAX,
        ensures
            spans_match(
                rows@,
                self@.row_spans(top as nat, left as nat, width as nat, height as nat),
            ),
    {
        let start_dest_col = left;
        let end_dest_col = self.width.min(left.saturating_add(width));
        let start_dest_row = top;
        let end_dest_row = self.height.min(top.saturating_add(height));

        let src_width = width;
        let dest_width = self.width;
        let copy_width = end_dest_col.saturating_sub(start_dest_col);

        let mut rows: Vec<(usize, usize, usize, usize)> = Vec::new();
        if copy_width == 0 || start_dest_row >= end_dest_row {
            return rows;
        }
        let mut dest_row = start_dest_row;
        while dest_row < end_dest_row
            invariant
                self.wf(),
                width * height <= usize::MAX,
                left < self.width,
                src_width == width,
                dest_width == self.width,
                copy_width == self@.copy_width(left as nat, width as nat),
                copy_width > 0,
                start_dest_row == top,
                start_dest_col == left,
                top <= dest_row <= end_dest_row,
                end_dest_row == top + self@.copy_height(top as nat, height as nat),
                rows@.len() == dest_row - top,
                forall|k: int|
                    0 <= k < rows@.len() ==> span_of(#[trigger] rows@[k]) == self@.row_span(
                        top as nat,
                        left as nat,
                        width as nat,
                        k as nat,
                    ),
            decreases end_dest_row - dest_row,
        {
            let src_row = dest_row - start_dest_row;
            assert(src_row * src_width + copy_width <= width * height) by (nonlinear_arith)
                requires
                    src_row < height,
                    copy_width <= width,
                    src_width == width,
            ;
            assert(self.data@.len() == self.data.len() <= usize::MAX);
            assert(dest_row * dest_width + left + copy_width <= self.data@.len()) by (nonlinear_arith)
                requires
                    dest_row < self.height,
                    left + copy_width <= self.width,
                    dest_width == self.width,
                    self.data@.len() == self.width * self.height,
            ;
            let src_start_idx = src_row * src_width;
            let src_end_idx = src_start_idx + copy_width;
            let dest_start_idx = dest_row * dest_width + start_dest_col;
            let dest_end_idx = dest_start_idx + copy_width;
            rows.push((src_start_idx, src_end_idx, dest_start_idx, dest_end_idx));
            dest_row += 1;
        }
        rows
    }

    /// Draws `src` onto this canvas with its upper left corner at row `top`
    /// and column `left`. Transparent pixels of `src` leave what is below
    /// them; what falls outside this canvas is cut off.
    pub fn blit_mut(&mut self, src: &Canvas, top: usize, left: usize)
        requires
            old(self).wf(),
            src.wf(),
        ensures
            final(self).wf(),
            final(self)@ == old(self)@.blit(src@, top as nat, left as nat),
    {
        let ghost g = self@;
        let ghost f = |i: int| g.blit_pixel(src@, top as nat, left as nat, i);
        let ghost spans = g.row_spans(top as nat, left as nat, src@.width, src@.height);
        assert(src.data@.len() == src.data.len() <= usize::MAX);
        let rows = self.blit_iter(top, left, src.width, src.height);
        if rows.len() == 0 {
            proof {
                lemma_nothing_visible(g, f, top as nat, left as nat, src@.width, src@.height);
            }
            return ;
        }
        proof {
            lemma_span_fits(g, top as nat, left as nat, src@.width, src@.height, 0);
            lemma_rows_above(g, f, top as nat, left as nat, src@.width, src@.height);
        }
        let mut k: usize = 0;
        while k < rows.len()
            invariant
                g.wf(),
                src.wf(),
                g == old(self)@,
                f == |i: int| g.blit_pixel(src@, top as nat, left as nat, i),
                keeps_outside(g, f, top as nat, left as nat, src@.width, src@.height),
                spans == g.row_spans(top as nat, left as nat, src@.width, src@.height),
                spans_match(rows@, spans),
                k <= rows.len(),
                self.width == g.width,
                self.height == g.height,
                self.data@ == repainted(g.pixels, f, (top + k) * g.width),
            decreases rows.len() - k,
        {
            let (src_start_idx, src_end_idx, dest_start_idx, dest_end_idx) = rows[k];
            proof {
                assert(span_of(rows@[k as int]) == spans[k as int]);
                lemma_span_fits(g, top as nat, left as nat, src@.width, src@.height, k as nat);
                lemma_left_margin(
                    g,
                    f,
                    top as nat,
                    left as nat,
                    src@.width,
                    src@.height,
                    (top + k) as nat,
                );
            }
            let mut i = src_start_idx;
            let mut j = dest_start_idx;
            while i < src_end_idx
                invariant
                    g.wf(),
                    src.wf(),
                    f == |i: int| g.blit_pixel(src@, top as nat, left as nat, i),
                    left < g.width,
                    src_start_idx == k * src@.width,
                    src_end_idx <= src_start_idx + src@.width,
                    src_end_idx <= src@.pixels.len(),
                    dest_start_idx == (top + k) * g.width + left,
                    dest_end_idx == dest_start_idx + (src_end_idx - src_start_idx),
                    dest_end_idx <= (top + k) * g.width + g.width,
                    dest_end_idx <= g.pixels.len(),
                    k < src@.height,
                    src_start_idx <= i <= src_end_idx,
                    j == dest_start_idx + (i - src_start_idx),
                    self.width == g.width,
                    self.height == g.height,
                    self.data@ == repainted(g.pixels, f, j as int),
                decreases src_end_idx - i,
            {
                let color = src.data[i];
                proof {
                    lemma_cell(g.width, (top + k) as int, left + (i - src_start_idx));
                    assert(src@.at(k as int, i - src_start_idx) == color);
                    assert(g.in_rect(j as int, top as nat, left as nat, src@.width, src@.height));
                }
                if !color.is_transparent() {
                    self.data.set(j, color);
                }
                assert(self.data@ =~= repainted(g.pixels, f, j + 1));
                i += 1;
                j += 1;
            }
            proof {
                lemma_right_margin(
                    g,
                    f,
                    top as nat,
                    left as nat,
                    src@.width,
                    src@.height,
                    (top + k) as nat,
                );
            }
            k += 1;
        }
        proof {
            lemma_rows_below(g, f, top as nat, left as nat, src@.width, src@.height);
            assert(self.data@ =~= g.blit(src@, top as nat, left as nat).pixels);
        }
    }

    /// A copy of this canvas with `src` drawn onto it.
    pub fn blit(&self, src: &Canvas, top: usize, left: usize) -> (dst: Canvas)
        requires
            self.wf(),
            src.wf(),
        ensures
            dst.wf(),
            dst@ == self@.blit(src@, top as nat, left as nat),
    {
        let mut dst = self.clone();
        dst.blit_mut(src, top, left);
        dst
    }

    /// Makes the given rectangle transparent. What of it falls outside this
    /// canvas is cut off.
    pub fn clear_rect_mut(&mut self, top: usize, left: usize, width: usize, height: usize)
        requires
            old(self).wf(),
        ensures
            final(self).wf(),
            final(self)@ == old(self)@.clear_rect(
                top as nat,
                left as nat,
                width as nat,
                height as nat,
            ),
    {
        let ghost g = self@;
        let ghost f = |i: int|
            if g.in_rect(i, top as nat, left as nat, width as nat, height as nat) {
                Color::spec_transparent()
            } else {
                g.pixels[i]
            };
        // Only the part of the rectangle that lies on the canvas matters.
        let width_on = width.min(self.width);
        let height_on = height.min(self.height);
        let ghost spans = g.row_spans(top as nat, left as nat, width as nat, height as nat);
        proof {
            assert(self.data@.len() == self.data.len() <= usize::MAX);
            assert(width_on * height_on <= self.width * self.height) by (nonlinear_arith)
                requires
                    width_on <= self.width,
                    height_on <= self.height,
            ;
            assert(g.row_spans(top as nat, left as nat, width_on as nat, height_on as nat).len()
                == spans.len());
        }
        let rows = self.blit_iter(top, left, width_on, height_on);
        if rows.len() == 0 {
            proof {
                lemma_nothing_visible(g, f, top as nat, left as nat, width as nat, height as nat);
                assert(self.data@ =~= g.clear_rect(
                    top as nat,
                    left as nat,
                    width as nat,
                    height as nat,
                ).pixels);
            }
            return ;
        }
        proof {
            lemma_span_fits(g, top as nat, left as nat, width as nat, height as nat, 0);
            lemma_rows_above(g, f, top as nat, left as nat, width as nat, height as nat);
        }
        let mut k: usize = 0;
        while k < rows.len()
            invariant
                g.wf(),
                g == old(self)@,
                f == |i: int|
                    if g.in_rect(i, top as nat, left as nat, width as nat, height as nat) {
                        Color::spec_transparent()
                    } else {
                        g.pixels[i]
                    },
                keeps_outside(g, f, top as nat, left as nat, width as nat, height as nat),
                spans == g.row_spans(top as nat, left as nat, width as nat, height as nat),
                width_on == if width < g.width {
                    width as nat
                } else {
                    g.width
                },
                spans_match(
                    rows@,
                    g.row_spans(top as nat, left as nat, width_on as nat, height_on as nat),
                ),
                rows@.len() == spans.len(),
                k <= rows.len(),
                self.width == g.width,
                self.height == g.height,
                self.data@ == repainted(g.pixels, f, (top + k) * g.width),
            decreases rows.len() - k,
        {
            let (_, _, dest_start_idx, dest_end_idx) = rows[k];
            proof {
                assert(span_of(rows@[k as int]) == g.row_spans(
                    top as nat,
                    left as nat,
                    width_on as nat,
                    height_on as nat,
                )[k as int]);
                lemma_span_fits(g, top as nat, left as nat, width as nat, height as nat, k as nat);
                lemma_span_fits(
                    g,
                    top as nat,
                    left as nat,
                    width_on as nat,
                    height_on as nat,
                    k as nat,
                );
                lemma_left_margin(
                    g,
                    f,
                    top as nat,
                    left as nat,
                    width as nat,
                    height as nat,
                    (top + k) as nat,
                );
            }
            let mut j = dest_start_idx;
            while j < dest_end_idx
                invariant
                    g.wf(),
                    f == |i: int|
                        if g.in_rect(i, top as nat, left as nat, width as nat, height as nat) {
                            Color::spec_transparent()
                        } else {
                            g.pixels[i]
                        },
                    left < g.width,
                    dest_start_idx == (top + k) * g.width + left,
                    dest_end_idx <= dest_start_idx + width,
                    dest_end_idx <= (top + k) * g.width + g.width,
                    dest_end_idx <= g.pixels.len(),
                    k < height,
                    dest_start_idx <= j <= dest_end_idx,
                    self.width == g.width,
                    self.height == g.height,
                    self.data@ == repainted(g.pixels, f, j as int),
                decreases dest_end_idx - j,
            {
                proof {
                    lemma_cell(g.width, (top + k) as int, left + (j - dest_start_idx));
                    assert(g.in_rect(
                        j as int,
                        top as nat,
                        left as nat,
                        width as nat,
                        height as nat,
                    ));
                }
                self.data.set(j, Color::transparent());
                assert(self.data@ =~= repainted(g.pixels, f, j + 1));
                j += 1;
            }
            proof {
                lemma_right_margin(
                    g,
                    f,
                    top as nat,
                    left as nat,
                    width as nat,
                    height as nat,
                    (top + k) as nat,
                );
            }
            k += 1;
        }
        proof {
            lemma_rows_below(g, f, top as nat, left as nat, width as nat, height as nat);
            assert(self.data@ =~= g.clear_rect(
                top as nat,
                left as nat,
                width as nat,
                height as nat,
            ).pixels);
        }
    }
}

} // verus!
