//! What is known of one frame before its pixels are read, and the frame that
//! comes out in the end.

use vstd::arithmetic::power2::{lemma2_to64, pow2};
use vstd::prelude::*;

use crate::blocks::{join, read_blocks, sub_blocks};
use crate::canvas::{Canvas, Raster};
use crate::color::{lemma_palette_in_prefix, palette_at, rgba_of, Color, ColorTable};
use crate::error::{eof, DecodeError, Failure};
use crate::lzw::{lemma_table_sizes, power_of_two};
use crate::reader::{le_u16, u16_from_le, Reader};

verus! {

/// What becomes of the running canvas once a frame was shown.
#[derive(Clone, Copy, Debug, PartialEq, Eq, Structural)]
pub enum DisposalMethod {
    /// The frame stays on the canvas.
    Keep,
    /// The frame's rectangle is made transparent.
    RestoreBackground,
    /// The canvas goes back to what it was before the frame.
    RestorePrevious,
}

impl Default for DisposalMethod {
    /// Frames are kept unless a graphics control extension says otherwise.
    fn default() -> (m: Self)
        ensures
            m == DisposalMethod::Keep,
    {
        DisposalMethod::Keep
    }
}

impl DisposalMethod {
    /// The method that a disposal code stands for. Codes without a meaning
    /// of their own keep the frame.
    pub open spec fn spec_from_u8(b: u8) -> DisposalMethod {
        if b == 2 {
            DisposalMethod::RestoreBackground
        } else if b == 3 {
            DisposalMethod::RestorePrevious
        } else {
            DisposalMethod::Keep
        }
    }

    /// The method that the disposal code `b` stands for.
    pub fn from_u8(b: u8) -> (m: Self)
        ensures
            m == Self::spec_from_u8(b),
    {
        match b {
            2 => Self::RestoreBackground,
            3 => Self::RestorePrevious,
            _ => Self::Keep,
        }
    }
}

/// Whether a packed byte of a descriptor announces a palette: its highest
/// bit.
pub open spec fn has_palette(packed: u8) -> bool {
    packed >= 128
}

/// The number of colors of the palette that a packed byte announces: two to
/// the power of one more than its lowest three bits.
pub open spec fn palette_size(packed: u8) -> nat {
    pow2((packed % 8 + 1) as nat)
}

/// Whether a packed byte of an image descriptor marks the frame as
/// interlaced: any of its bits 4 to 6.
pub open spec fn is_interlaced(packed: u8) -> bool {
    (packed / 16) % 8 != 0
}

/// The disposal code in the packed byte of a graphics control extension: its
/// bits 2 to 4.
pub open spec fn disposal_code(packed: u8) -> u8 {
    (packed / 4) % 8
}

/// Whether the packed byte of a graphics control extension announces a
/// transparent index: its lowest bit.
pub open spec fn has_transparency(packed: u8) -> bool {
    packed % 2 == 1
}

/// The fields of a packed byte, as the masks and shifts find them.
pub proof fn lemma_packed_fields(packed: u8)
    ensures
        (packed & 0x80 != 0) == has_palette(packed),
        (packed & 0x7) == packed % 8,
        (packed & 0x70 != 0) == is_interlaced(packed),
        ((packed & 0b00011100) >> 2) == disposal_code(packed),
        (packed & 1 == 1) == has_transparency(packed),
{
    assert((packed & 0x80 != 0) == (packed >= 128)) by (bit_vector);
    assert((packed & 0x7) == packed % 8) by (bit_vector);
    assert((packed & 0x70 != 0) == ((packed / 16) % 8 != 0)) by (bit_vector);
    assert(((packed & 0b00011100) >> 2) == (packed / 4) % 8) by (bit_vector);
    assert((packed & 1 == 1) == (packed % 2 == 1)) by (bit_vector);
}

/// The number of colors that a packed byte announces.
pub fn packed_palette_size(packed: u8) -> (size: usize)
    ensures
        size == palette_size(packed),
        2 <= size <= 256,
{
    proof {
        lemma_packed_fields(packed);
        lemma_table_sizes();
        lemma2_to64();
    }
    power_of_two((packed & 0x7) + 1)
}

/// The mathematical content of a [`FrameDecoder`].
pub struct FrameState {
    pub transparency: Option<usize>,
    pub palette: Option<Seq<Color>>,
    pub interlaced: bool,
    pub left: u16,
    pub top: u16,
    pub width: u16,
    pub height: u16,
    pub delay: u16,
    pub disposal: DisposalMethod,
    pub frame: Raster,
}

impl FrameState {
    /// The state before anything is known of a frame.
    pub open spec fn fresh() -> FrameState {
        FrameState {
            transparency: None,
            palette: None,
            interlaced: false,
            left: 0,
            top: 0,
            width: 0,
            height: 0,
            delay: 0,
            disposal: DisposalMethod::Keep,
            frame: Raster { width: 0, height: 0, pixels: Seq::empty() },
        }
    }

    /// The state after a graphics control extension whose sub-blocks hold
    /// `block`. A block of fewer than four bytes changes nothing. The
    /// transparent index is set only where the block announces one.
    pub open spec fn gfx_ctrl(self, block: Seq<u8>) -> FrameState {
        if block.len() < 4 {
            self
        } else {
            FrameState {
                disposal: DisposalMethod::spec_from_u8(disposal_code(block[0])),
                delay: le_u16(block.subrange(1, 3)),
                transparency: if has_transparency(block[0]) {
                    Some(block[3] as usize)
                } else {
                    self.transparency
                },
                ..self
            }
        }
    }

    /// The state after the image descriptor at `pos`, and the position
    /// behind it: four 16-bit numbers for the frame's place and size, a
    /// packed byte, and the local palette if the byte announces one.
    pub open spec fn image_descriptor(self, data: Seq<u8>, pos: int) -> Result<
        (FrameState, int),
        Failure,
    > {
        if pos < 0 || pos + 9 > data.len() {
            Err(eof())
        } else {
            let packed = data[pos + 8];
            let described = FrameState {
                left: le_u16(data.subrange(pos, pos + 2)),
                top: le_u16(data.subrange(pos + 2, pos + 4)),
                width: le_u16(data.subrange(pos + 4, pos + 6)),
                height: le_u16(data.subrange(pos + 6, pos + 8)),
                interlaced: is_interlaced(packed),
                ..self
            };
            let frame = Raster::filled(
                Color::spec_transparent(),
                described.width as nat,
                described.height as nat,
            );
            if has_palette(packed) {
                match palette_at(data, pos + 9, palette_size(packed)) {
                    None => Err(eof()),
                    Some(colors) => Ok(
                        (
                            FrameState { palette: Some(colors), frame, ..described },
                            pos + 9 + 3 * palette_size(packed),
                        ),
                    ),
                }
            } else {
                Ok((FrameState { frame, ..described }, pos + 9))
            }
        }
    }
}

/// An image descriptor that lies within a prefix of the input reads the same
/// there.
pub proof fn lemma_descriptor_in_prefix(state: FrameState, data: Seq<u8>, pos: int, cut: int)
    requires
        cut <= data.len(),
        state.image_descriptor(data, pos) matches Ok((_, end)) && end <= cut,
    ensures
        state.image_descriptor(data.take(cut), pos) == state.image_descriptor(data, pos),
{
    let short = data.take(cut);
    let packed = data[pos + 8];
    assert(short.subrange(pos, pos + 2) =~= data.subrange(pos, pos + 2));
    assert(short.subrange(pos + 2, pos + 4) =~= data.subrange(pos + 2, pos + 4));
    assert(short.subrange(pos + 4, pos + 6) =~= data.subrange(pos + 4, pos + 6));
    assert(short.subrange(pos + 6, pos + 8) =~= data.subrange(pos + 6, pos + 8));
    if has_palette(packed) {
        lemma_palette_in_prefix(data, pos + 9, palette_size(packed), cut);
    }
}

/// The state of one frame while it is read: what graphics control
/// extensions said of it, and its image descriptor.
pub struct FrameDecoder {
    pub transparency_idx: Option<usize>,
    pub palette: Option<ColorTable>,
    pub interlaced: bool,
    pub left: u16,
    pub top: u16,
    pub width: u16,
    pub height: u16,
    pub delay: u16,
    pub disposal_method: DisposalMethod,
    pub frame: Canvas,
}

impl View for FrameDecoder {
    type V = FrameState;

    open spec fn view(&self) -> FrameState {
        FrameState {
            transparency: self.transparency_idx,
            palette: match self.palette {
                Some(ct) => Some(ct@),
                None => None,
            },
            interlaced: self.interlaced,
            left: self.left,
            top: self.top,
            width: self.width,
            height: self.height,
            delay: self.delay,
            disposal: self.disposal_method,
            frame: self.frame@,
        }
    }
}

impl Default for FrameDecoder {
    /// The state before anything is known of a frame.
    fn default() -> (fd: Self)
        ensures
            fd@ == FrameState::fresh(),
    {
        FrameDecoder {
            transparency_idx: None,
            palette: None,
            interlaced: false,
            left: 0,
            top: 0,
            width: 0,
            height: 0,
            delay: 0,
            disposal_method: DisposalMethod::Keep,
            frame: Canvas::default(),
        }
    }
}

impl FrameDecoder {
    /// Reads the sub-blocks of a graphics control extension and takes the
    /// disposal method, the delay and the transparent index from them.
    ///
    /// After a failure the position and the state are unspecified.
    pub fn read_gfx_ctrl_ext(&mut self, rdr: &mut Reader) -> (r: Result<(), DecodeError>)
        requires
            old(rdr).wf(),
        ensures
            final(rdr).wf(),
            final(rdr).data == old(rdr).data,
            match sub_blocks(old(rdr).data@, old(rdr).pos as int) {
                Some((blocks, end)) => r.is_ok() && final(self)@ == old(self)@.gfx_ctrl(
                    blocks.flatten(),
                ) && final(rdr).pos == end,
                None => r matches Err(e) && e@ == eof(),
            },
    {
        let blocks = read_blocks(rdr)?;
        let block = join(&blocks);
        if block.len() < 4 {
            // Not a valid control block: it is passed over.
            return Ok(());
        }
        let packed = block[0];
        let disposal = (packed & 0b00011100) >> 2;
        let has_transparency = packed & 1 == 1;
        proof {
            lemma_packed_fields(packed);
        }

        self.disposal_method = DisposalMethod::from_u8(disposal);
        self.delay = u16_from_le(vstd::slice::slice_subrange(block.as_slice(), 1, 3));
        if has_transparency {
            self.transparency_idx = Some(block[3] as usize);
        }
        Ok(())
    }

    /// Reads an image descriptor, and the local palette if it has one.
    ///
    /// After a failure the position and the state are unspecified.
    pub fn read_image_descriptor(&mut self, rdr: &mut Reader) -> (r: Result<(), DecodeError>)
        requires
            old(rdr).wf(),
        ensures
            final(rdr).wf(),
            final(rdr).data == old(rdr).data,
            match old(self)@.image_descriptor(old(rdr).data@, old(rdr).pos as int) {
                Ok((state, end)) => r.is_ok() && final(self)@ == state && final(rdr).pos == end
                    && final(self).frame.wf(),
                Err(failure) => r matches Err(e) && e@ == failure,
            },
    {
        let ghost data = rdr.data@;
        let ghost pos = rdr.pos as int;
        self.left = rdr.read_u16_le()?;
        self.top = rdr.read_u16_le()?;
        self.width = rdr.read_u16_le()?;
        self.height = rdr.read_u16_le()?;
        let packed = rdr.read_u8()?;

        let has_palette = packed & 0x80 != 0;
        let palette_size = packed_palette_size(packed);
        self.interlaced = packed & 0x70 != 0;
        proof {
            lemma_packed_fields(packed);
        }

        if has_palette {
            self.palette = Some(ColorTable::read(rdr, palette_size)?);
        }
        assert(self.width * self.height <= usize::MAX) by (nonlinear_arith)
            requires
                self.width <= 0xffff,
                self.height <= 0xffff,
                usize::MAX >= 0xffff_ffff,
        ;
        self.frame = Canvas::from_bg_color(
            Color::transparent(),
            self.width as usize,
            self.height as usize,
        );
        Ok(())
    }
}

/// The RGBA bytes of a row of pixels: four for each pixel, in order.
pub open spec fn rgba_bytes(pixels: Seq<Color>) -> Seq<u8> {
    Seq::new(4 * pixels.len(), |i: int| rgba_of(pixels[i / 4])[i % 4])
}

/// Each pixel takes four bytes of the buffer: an opaque one its channels and
/// full alpha, a transparent one four zeroes.
pub proof fn lemma_rgba_bytes(pixels: Seq<Color>, i: int)
    requires
        0 <= i < pixels.len(),
    ensures
        rgba_bytes(pixels).len() == 4 * pixels.len(),
        rgba_bytes(pixels).subrange(4 * i, 4 * i + 4) == rgba_of(pixels[i]),
        pixels[i].3 ==> rgba_bytes(pixels)[4 * i + 3] == 255,
        !pixels[i].3 ==> rgba_bytes(pixels).subrange(4 * i, 4 * i + 4) == seq![0u8, 0u8, 0u8, 0u8],
{
    assert(rgba_bytes(pixels).subrange(4 * i, 4 * i + 4) =~= rgba_of(pixels[i]));
}

/// The mathematical content of a [`GifFrame`].
pub struct FrameView {
    pub width: u16,
    pub height: u16,
    pub top: u16,
    pub left: u16,
    pub delay: u16,
    pub image_data: Seq<u8>,
}

/// One frame of a decoded GIF: where the frame's own rectangle lies, how
/// long it is shown, and the whole canvas as it looks while the frame is
/// shown, in RGBA order.
pub struct GifFrame {
    pub width: u16,
    pub height: u16,
    pub top: u16,
    pub left: u16,
    pub delay: u16,
    pub image_data: Vec<u8>,
}

impl View for GifFrame {
    type V = FrameView;

    open spec fn view(&self) -> FrameView {
        FrameView {
            width: self.width,
            height: self.height,
            top: self.top,
            left: self.left,
            delay: self.delay,
            image_data: self.image_data@,
        }
    }
}

impl Clone for GifFrame {
    /// A frame with the same fields and the same bytes.
    fn clone(&self) -> (f: Self)
        ensures
            f@ == self@,
    {
        let image_data = self.image_data.clone();
        assert(image_data@ =~= self.image_data@);
        GifFrame {
            width: self.width,
            height: self.height,
            top: self.top,
            left: self.left,
            delay: self.delay,
            image_data,
        }
    }
}

/// The frame that a frame state and the canvas shown with it make.
pub open spec fn frame_view(state: FrameState, canvas: Raster) -> FrameView {
    FrameView {
        width: state.width,
        height: state.height,
        top: state.top,
        left: state.left,
        delay: state.delay,
        image_data: rgba_bytes(canvas.pixels),
    }
}

impl GifFrame {
    /// The frame that `fdec` describes, showing the canvas `cvs`.
    pub fn new(fdec: &FrameDecoder, cvs: Canvas) -> (f: Self)
        ensures
            f@ == frame_view(fdec@, cvs@),
    {
        let mut image_data: Vec<u8> = Vec::new();
        let mut i: usize = 0;
        while i < cvs.data.len()
            invariant
                i <= cvs.data.len(),
                image_data@ == rgba_bytes(cvs.data@.take(i as int)),
            decreases cvs.data.len() - i,
        {
            let arr = cvs.data[i].into_arr();
            let ghost before = image_data@;
            image_data.push(arr[0]);
            image_data.push(arr[1]);
            image_data.push(arr[2]);
            image_data.push(arr[3]);
            assert(image_data@ =~= rgba_bytes(cvs.data@.take(i + 1)));
            i += 1;
        }
        assert(cvs.data@.take(i as int) =~= cvs.data@);
        GifFrame {
            width: fdec.width,
            height: fdec.height,
            top: fdec.top,
            left: fdec.left,
            delay: fdec.delay,
            image_data,
        }
    }
}

} // verus!
