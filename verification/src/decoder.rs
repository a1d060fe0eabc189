//! The decoder proper: the header, the logical screen descriptor, and the
//! blocks of the body, each frame composited onto a running canvas.

use vstd::prelude::*;

use crate::blocks::{byte_seqs, lemma_sub_blocks_end, read_blocks, sub_blocks};
use crate::canvas::{frame_at, Canvas, Raster};
use crate::color::{null_palette, palette_at, Color, ColorTable};
use crate::error::{eof, DecodeError, Failure};
use crate::frame::{
    frame_view, has_palette, lemma_packed_fields, packed_palette_size, palette_size,
    DisposalMethod, FrameDecoder, FrameState, FrameView, GifFrame,
};
use crate::reader::{bytes_eq, le_u16, u16_from_le, Reader};

verus! {

/// The text that `String::from_utf8_lossy` makes of `bytes`: the text that
/// they encode in UTF-8, with a replacement character for what is no valid
/// encoding.
pub uninterp spec fn utf8_lossy(bytes: Seq<u8>) -> Seq<char>;

/// `String::from_utf8_lossy`, its result taken as an owned string. The
/// result depends on the bytes alone, and the contract names it.
#[verifier::external_body]
fn lossy_text(bytes: &[u8]) -> (text: String)
    ensures
        text@ == utf8_lossy(bytes@),
{
    String::from_utf8_lossy(bytes).to_string()
}

/// The three bytes that every GIF stream starts with: `GIF`.
pub open spec fn magic() -> Seq<u8> {
    seq![0x47u8, 0x49u8, 0x46u8]
}

/// The version `87a`.
pub open spec fn version_87a() -> Seq<u8> {
    seq![0x38u8, 0x37u8, 0x61u8]
}

/// The version `89a`.
pub open spec fn version_89a() -> Seq<u8> {
    seq![0x38u8, 0x39u8, 0x61u8]
}

/// The identifier of the application extension that holds the loop count:
/// `NETSCAPE2.0`.
pub open spec fn netscape_id() -> Seq<u8> {
    seq![
        0x4eu8,
        0x45u8,
        0x54u8,
        0x53u8,
        0x43u8,
        0x41u8,
        0x50u8,
        0x45u8,
        0x32u8,
        0x2eu8,
        0x30u8,
    ]
}

/// The mathematical content of a [`Decoder`] apart from its input.
pub struct Decoding {
    /// The read position in the input.
    pub pos: int,
    pub canvas_width: u16,
    pub canvas_height: u16,
    pub global_palette: Option<Seq<Color>>,
    pub bg_color: Color,
    pub max_loops: Option<u16>,
    /// What is known of the frame to come.
    pub frame: FrameState,
    /// The running canvas.
    pub working: Raster,
    /// The frames decoded so far.
    pub frames: Seq<FrameView>,
}

/// The mathematical content of a [`DecodedGif`].
pub struct GifView {
    pub canvas_width: u16,
    pub canvas_height: u16,
    pub max_loops: Option<u16>,
    pub frames: Seq<FrameView>,
}

/// The running canvas after a frame was shown: `working` is the canvas
/// before the frame, `shown` the canvas with the frame drawn onto it.
pub open spec fn disposed(working: Raster, shown: Raster, frame: FrameState) -> Raster {
    match frame.disposal {
        DisposalMethod::Keep => shown,
        DisposalMethod::RestoreBackground => working.clear_rect(
            frame.top as nat,
            frame.left as nat,
            frame.width as nat,
            frame.height as nat,
        ),
        DisposalMethod::RestorePrevious => working,
    }
}

/// The state after the logical screen descriptor at `pos`: the size of the
/// canvas, a packed byte, the index of the background color and one unused
/// byte, then the global palette if the packed byte announces one.
pub open spec fn screen_descriptor(data: Seq<u8>, pos: int) -> Result<Decoding, Failure> {
    if pos < 0 || pos + 7 > data.len() {
        Err(eof())
    } else {
        let packed = data[pos + 4];
        let width = le_u16(data.subrange(pos, pos + 2));
        let height = le_u16(data.subrange(pos + 2, pos + 4));
        let start = Decoding {
            pos: pos + 7,
            canvas_width: width,
            canvas_height: height,
            global_palette: None,
            bg_color: Color::spec_default(),
            max_loops: None,
            frame: FrameState::fresh(),
            working: Raster::filled(Color::spec_transparent(), width as nat, height as nat),
            frames: Seq::empty(),
        };
        if has_palette(packed) {
            match palette_at(data, pos + 7, palette_size(packed)) {
                None => Err(eof()),
                Some(colors) => Ok(
                    Decoding {
                        pos: pos + 7 + 3 * palette_size(packed),
                        global_palette: Some(colors),
                        bg_color: if data[pos + 5] < colors.len() {
                            colors[data[pos + 5] as int]
                        } else {
                            Color::spec_default()
                        },
                        ..start
                    },
                ),
            }
        } else {
            Ok(start)
        }
    }
}

/// The state after the header and the logical screen descriptor of a stream
/// that starts at `pos`.
pub open spec fn header(data: Seq<u8>, pos: int) -> Result<Decoding, Failure> {
    if pos < 0 || pos + 3 > data.len() {
        Err(eof())
    } else if data.subrange(pos, pos + 3) != magic() {
        Err(Failure::NotAGif)
    } else if pos + 6 > data.len() {
        Err(eof())
    } else if data.subrange(pos + 3, pos + 6) != version_87a() && data.subrange(pos + 3, pos + 6)
        != version_89a() {
        Err(Failure::InvalidVersion(utf8_lossy(data.subrange(pos + 3, pos + 6))))
    } else {
        screen_descriptor(data, pos + 6)
    }
}

impl Decoding {
    /// The canvas is as large as the logical screen.
    pub open spec fn wf(self) -> bool {
        &&& self.working.wf()
        &&& self.working.width == self.canvas_width
        &&& self.working.height == self.canvas_height
    }

    /// The state after an application extension with the sub-blocks
    /// `blocks`: the loop count is taken from the second block if the first
    /// is the looping identifier and the second has three bytes or more.
    pub open spec fn application_ext(self, blocks: Seq<Seq<u8>>) -> Decoding {
        if blocks.len() >= 2 && blocks[0] == netscape_id() && blocks[1].len() >= 3 {
            Decoding { max_loops: Some(le_u16(blocks[1].subrange(1, 3))), ..self }
        } else {
            self
        }
    }

    /// The state after the extension whose label is at the read position.
    pub open spec fn extension(self, data: Seq<u8>) -> Result<Decoding, Failure> {
        if self.pos < 0 || self.pos >= data.len() {
            Err(eof())
        } else {
            match sub_blocks(data, self.pos + 1) {
                None => Err(eof()),
                Some((blocks, end)) => {
                    let label = data[self.pos];
                    let read = Decoding { pos: end, ..self };
                    if label == 0xf9 {
                        Ok(Decoding { frame: self.frame.gfx_ctrl(blocks.flatten()), ..read })
                    } else if label == 0xff {
                        Ok(read.application_ext(blocks))
                    } else {
                        Ok(read)
                    }
                },
            }
        }
    }

    /// The palette that the frame to come is painted with: its own, else the
    /// global one, else the null palette.
    pub open spec fn palette(self) -> Seq<Color> {
        match self.frame.palette {
            Some(colors) => colors,
            None => match self.global_palette {
                Some(colors) => colors,
                None => null_palette(),
            },
        }
    }

    /// The state after the image whose descriptor is at the read position:
    /// the frame is read, put in row order if it is interlaced, and drawn on
    /// the running canvas. The canvas with the frame on it becomes a frame of
    /// the result, whatever the disposal method then makes of the running
    /// canvas.
    pub open spec fn image(self, data: Seq<u8>) -> Result<Decoding, Failure> {
        match self.frame.image_descriptor(data, self.pos) {
            Err(e) => Err(e),
            Ok((frame, pos)) => {
                let described = Decoding { frame, pos, ..self };
                match frame_at(
                    data,
                    pos,
                    described.palette(),
                    frame.transparency,
                    frame.width as nat,
                    frame.height as nat,
                ) {
                    Err(e) => Err(e),
                    Ok((raster, end)) => {
                        let picture = if frame.interlaced {
                            raster.deinterlaced()
                        } else {
                            raster
                        };
                        let shown = self.working.blit(picture, frame.top as nat, frame.left as nat);
                        Ok(
                            Decoding {
                                pos: end,
                                frame: FrameState::fresh(),
                                working: disposed(self.working, shown, frame),
                                frames: self.frames.push(frame_view(frame, shown)),
                                ..self
                            },
                        )
                    },
                }
            },
        }
    }

    /// The state at the end of the body that starts at the read position.
    /// Each block starts with one byte that tells its kind: `0x21` an
    /// extension, `0x2c` an image, `0x3b` the trailer. Input that ends where
    /// a block would start ends the stream as the trailer does.
    pub open spec fn body(self, data: Seq<u8>) -> Result<Decoding, Failure>
        decreases data.len() - self.pos,
    {
        if self.pos < 0 || self.pos >= data.len() {
            Ok(self)
        } else {
            let sigil = data[self.pos];
            let inside = Decoding { pos: self.pos + 1, ..self };
            if sigil == 0x21 {
                match inside.extension(data) {
                    Err(e) => Err(e),
                    Ok(next) => {
                        proof {
                            lemma_extension_advances(inside, data);
                        }
                        next.body(data)
                    },
                }
            } else if sigil == 0x2c {
                match inside.image(data) {
                    Err(e) => Err(e),
                    Ok(next) => {
                        proof {
                            lemma_image_advances(inside, data);
                        }
                        next.body(data)
                    },
                }
            } else if sigil == 0x3b {
                Ok(inside)
            } else {
                Err(Failure::UnknownBlock(sigil))
            }
        }
    }

    /// What the caller gets of a finished state.
    pub open spec fn gif(self) -> GifView {
        GifView {
            canvas_width: self.canvas_width,
            canvas_height: self.canvas_height,
            max_loops: self.max_loops,
            frames: self.frames,
        }
    }
}

/// An extension is read from the front to the back.
pub proof fn lemma_extension_advances(s: Decoding, data: Seq<u8>)
    ensures
        s.extension(data) matches Ok(next) ==> s.pos < next.pos <= data.len(),
{
    lemma_sub_blocks_end(data, s.pos + 1);
}

/// An image is read from the front to the back.
pub proof fn lemma_image_advances(s: Decoding, data: Seq<u8>)
    ensures
        s.image(data) matches Ok(next) ==> s.pos < next.pos <= data.len(),
{
    if let Ok((frame, pos)) = s.frame.image_descriptor(data, s.pos) {
        lemma_sub_blocks_end(data, pos + 1);
    }
}

/// What decoding the stream `data` gives: the header, then the body to its
/// end.
pub open spec fn decoded(data: Seq<u8>) -> Result<GifView, Failure> {
    match header(data, 0) {
        Err(e) => Err(e),
        Ok(start) => match start.body(data) {
            Err(e) => Err(e),
            Ok(end) => Ok(end.gif()),
        },
    }
}

/// The contents of a list of frames.
pub open spec fn frame_views(frames: Seq<GifFrame>) -> Seq<FrameView> {
    Seq::new(frames.len(), |i: int| frames[i]@)
}

/// A decoded GIF: the size of its canvas, how often it loops, and its frames
/// in order.
pub struct DecodedGif {
    pub canvas_width: u16,
    pub canvas_height: u16,
    pub max_loops: Option<u16>,
    pub num_frames: usize,
    pub frames: Vec<GifFrame>,
}

impl View for DecodedGif {
    type V = GifView;

    open spec fn view(&self) -> GifView {
        GifView {
            canvas_width: self.canvas_width,
            canvas_height: self.canvas_height,
            max_loops: self.max_loops,
            frames: frame_views(self.frames@),
        }
    }
}

impl DecodedGif {
    /// The number of frames is the length of the list of frames.
    pub open spec fn wf(&self) -> bool {
        self.num_frames == self.frames@.len()
    }

    /// A copy of frame `i`, if there is one.
    pub fn frame(&self, i: usize) -> (r: Option<GifFrame>)
        ensures
            i < self@.frames.len() ==> (r matches Some(f) && f@ == self@.frames[i as int]),
            i >= self@.frames.len() ==> r.is_none(),
    {
        if i >= self.frames.len() {
            return None;
        }
        Some(self.frames[i].clone())
    }
}

/// The state of decoding one stream.
pub struct Decoder<'a> {
    pub rdr: Reader<'a>,
    // From the logical screen descriptor.
    pub canvas_width: u16,
    pub canvas_height: u16,
    pub global_palette: Option<ColorTable>,
    pub bg_color: Color,
    // From the looping application extension.
    pub max_loops: Option<u16>,
    // What is known of the frame to come; reset after each frame.
    pub frame_dec: FrameDecoder,
    pub working_canvas: Canvas,
    pub frames: Vec<GifFrame>,
}

impl<'a> View for Decoder<'a> {
    type V = Decoding;

    open spec fn view(&self) -> Decoding {
        Decoding {
            pos: self.rdr.pos as int,
            canvas_width: self.canvas_width,
            canvas_height: self.canvas_height,
            global_palette: match self.global_palette {
                Some(ct) => Some(ct@),
                None => None,
            },
            bg_color: self.bg_color,
            max_loops: self.max_loops,
            frame: self.frame_dec@,
            working: self.working_canvas@,
            frames: frame_views(self.frames@),
        }
    }
}

/// The product of two 16-bit numbers fits the machine's word.
proof fn lemma_area_fits(width: u16, height: u16)
    ensures
        width * height <= usize::MAX,
{
    assert(width * height <= usize::MAX) by (nonlinear_arith)
        requires
            width <= 0xffff,
            height <= 0xffff,
            usize::MAX >= 0xffff_ffff,
    ;
}

impl<'a> Decoder<'a> {
    /// The reader stands within its input, and the running canvas is as
    /// large as the logical screen.
    pub open spec fn wf(&self) -> bool {
        &&& self.rdr.wf()
        &&& self@.wf()
    }

    /// Reads the header and the logical screen descriptor.
    ///
    /// The stream must start with `GIF` and one of the versions `87a` and
    /// `89a`.
    pub fn new(rdr: Reader<'a>) -> (r: Result<Self, DecodeError>)
        requires
            rdr.wf(),
        ensures
            match header(rdr.data@, rdr.pos as int) {
                Ok(state) => r matches Ok(dec) && dec.wf() && dec@ == state && dec.rdr.data
                    == rdr.data,
                Err(failure) => r matches Err(e) && e@ == failure,
            },
    {
        let mut rdr = rdr;
        let signature = rdr.read_exact(3)?;
        let gif: [u8; 3] = [0x47, 0x49, 0x46];
        assert(gif@ =~= magic());
        if !bytes_eq(signature, gif.as_slice()) {
            return Err(DecodeError::NotAGif);
        }
        let version = rdr.read_exact(3)?;
        let v87a: [u8; 3] = [0x38, 0x37, 0x61];
        let v89a: [u8; 3] = [0x38, 0x39, 0x61];
        assert(v87a@ =~= version_87a() && v89a@ =~= version_89a());
        if !bytes_eq(version, v87a.as_slice()) && !bytes_eq(version, v89a.as_slice()) {
            return Err(DecodeError::InvalidVersion(lossy_text(version)));
        }
        // The logical screen descriptor.

        let canvas_width = rdr.read_u16_le()?;
        let canvas_height = rdr.read_u16_le()?;

        let packed = rdr.read_u8()?;
        let has_global_palette = packed & 0x80 != 0;
        let global_palette_size = packed_palette_size(packed);
        let background_color_index = rdr.read_u8()? as usize;
        proof {
            lemma_packed_fields(packed);
        }

        rdr.read_u8()?;  // The pixel aspect ratio, which is not used.

        let (bg_color, global_palette) = if has_global_palette {
            let ct = ColorTable::read(&mut rdr, global_palette_size)?;
            let bg_color = match ct.get(background_color_index) {
                Ok(color) => color,
                Err(_) => Color::default(),
            };
            (bg_color, Some(ct))
        } else {
            (Color::default(), None)
        };

        proof {
            lemma_area_fits(canvas_width, canvas_height);
        }
        let working_canvas = Canvas::from_bg_color(
            Color::transparent(),
            canvas_width as usize,
            canvas_height as usize,
        );
        let frames: Vec<GifFrame> = Vec::new();
        assert(frame_views(frames@) =~= Seq::<FrameView>::empty());

        Ok(
            Decoder {
                rdr,
                canvas_width,
                canvas_height,
                global_palette,
                bg_color,
                max_loops: None,
                frame_dec: FrameDecoder::default(),
                working_canvas,
                frames,
            },
        )
    }

    /// Reads the blocks of the body up to the trailer, or up to the end of
    /// the input where the trailer is missing.
    ///
    /// After a failure the state is unspecified.
    pub fn read_body(&mut self) -> (r: Result<(), DecodeError>)
        requires
            old(self).wf(),
        ensures
            final(self).rdr.data == old(self).rdr.data,
            match old(self)@.body(old(self).rdr.data@) {
                Ok(state) => r.is_ok() && final(self).wf() && final(self)@ == state,
                Err(failure) => r matches Err(e) && e@ == failure,
            },
    {
        let ghost data = self.rdr.data@;
        let ghost goal = self@.body(data);
        loop
            invariant
                self.wf(),
                self.rdr.data == old(self).rdr.data,
                data == self.rdr.data@,
                goal == old(self)@.body(data),
                self@.body(data) == goal,
            decreases data.len() - self.rdr.pos,
        {
            let sigil = match self.rdr.read_u8() {
                Ok(b) => b,
                // A stream without a trailer ends here.
                Err(DecodeError::IO(_)) => {
                    return Ok(());
                },
                Err(e) => {
                    return Err(e);
                },
            };
            proof {
                let inside = self@;
                lemma_extension_advances(inside, data);
                lemma_image_advances(inside, data);
            }
            match sigil {
                0x21 => self.read_extension()?,
                0x2c => self.read_frame()?,
                0x3b => {
                    return Ok(());
                },
                b => {
                    return Err(DecodeError::UnknownBlock(b));
                },
            };
        }
    }

    /// Reads an extension, its label first.
    ///
    /// After a failure the state is unspecified.
    pub fn read_extension(&mut self) -> (r: Result<(), DecodeError>)
        requires
            old(self).wf(),
        ensures
            final(self).rdr.data == old(self).rdr.data,
            match old(self)@.extension(old(self).rdr.data@) {
                Ok(state) => r.is_ok() && final(self).wf() && final(self)@ == state,
                Err(failure) => r matches Err(e) && e@ == failure,
            },
    {
        match self.rdr.read_u8()? {
            0xf9 => self.frame_dec.read_gfx_ctrl_ext(&mut self.rdr),
            0xff => self.read_application_ext(),
            _ => {
                read_blocks(&mut self.rdr)?;
                Ok(())
            },
        }
    }

    /// Reads the sub-blocks of an application extension, and takes the loop
    /// count from them if they are those of the looping extension.
    ///
    /// After a failure the state is unspecified.
    pub fn read_application_ext(&mut self) -> (r: Result<(), DecodeError>)
        requires
            old(self).wf(),
        ensures
            final(self).rdr.data == old(self).rdr.data,
            match sub_blocks(old(self).rdr.data@, old(self).rdr.pos as int) {
                Some((blocks, end)) => r.is_ok() && final(self).wf() && final(self)@ == (Decoding {
                    pos: end,
                    ..old(self)@
                }).application_ext(blocks),
                None => r matches Err(e) && e@ == eof(),
            },
    {
        proof {
            lemma_sub_blocks_end(self.rdr.data@, self.rdr.pos as int);
        }
        let blocks = read_blocks(&mut self.rdr)?;
        if blocks.len() < 2 {
            return Ok(());
        }
        let netscape: [u8; 11] = [0x4e, 0x45, 0x54, 0x53, 0x43, 0x41, 0x50, 0x45, 0x32, 0x2e, 0x30];
        assert(netscape@ =~= netscape_id());
        assert(byte_seqs(blocks@)[0] == blocks@[0]@ && byte_seqs(blocks@)[1] == blocks@[1]@);
        if !bytes_eq(blocks[0].as_slice(), netscape.as_slice()) {
            return Ok(());
        }
        if blocks[1].len() < 3 {
            return Ok(());
        }
        self.max_loops = Some(
            u16_from_le(vstd::slice::slice_subrange(blocks[1].as_slice(), 1, 3)),
        );
        Ok(())
    }

    /// Reads an image: its descriptor and its data. The frame is drawn on
    /// the running canvas, and the canvas with the frame on it is added to
    /// the frames.
    ///
    /// After a failure the state is unspecified.
    pub fn read_frame(&mut self) -> (r: Result<(), DecodeError>)
        requires
            old(self).wf(),
        ensures
            final(self).rdr.data == old(self).rdr.data,
            match old(self)@.image(old(self).rdr.data@) {
                Ok(state) => r.is_ok() && final(self).wf() && final(self)@ == state,
                Err(failure) => r matches Err(e) && e@ == failure,
            },
    {
        self.frame_dec.read_image_descriptor(&mut self.rdr)?;
        let ghost described = self@;

        // The palette of the frame, else that of the stream, else one that is
        // all black, so that there is something to show.
        let null: ColorTable;
        let palette = match &self.frame_dec.palette {
            Some(pal) => pal,
            None => match &self.global_palette {
                Some(pal) => pal,
                None => {
                    null = ColorTable::null();
                    &null
                },
            },
        };
        assert(palette@ == described.palette());
        proof {
            lemma_area_fits(self.frame_dec.width, self.frame_dec.height);
        }

        let canvas = {
            let c = Canvas::from_gif_data(
                &mut self.rdr,
                palette,
                self.frame_dec.transparency_idx,
                self.frame_dec.width as usize,
                self.frame_dec.height as usize,
            )?;
            if self.frame_dec.interlaced {
                c.deinterlaced()
            } else {
                c
            }
        };

        let new_canvas = self.working_canvas.blit(
            &canvas,
            self.frame_dec.top as usize,
            self.frame_dec.left as usize,
        );

        match self.frame_dec.disposal_method {
            DisposalMethod::Keep => {
                self.working_canvas = new_canvas.clone();
            },
            // The frame's rectangle is cleared to transparency, not to the
            // background color: that is what viewers do.
            DisposalMethod::RestoreBackground => {
                self.working_canvas.clear_rect_mut(
                    self.frame_dec.top as usize,
                    self.frame_dec.left as usize,
                    self.frame_dec.width as usize,
                    self.frame_dec.height as usize,
                );
            },
            DisposalMethod::RestorePrevious => {},
        }

        let frame = GifFrame::new(&self.frame_dec, new_canvas);
        let ghost before = frame_views(self.frames@);
        self.frames.push(frame);
        assert(frame_views(self.frames@) =~= before.push(frame@));

        self.frame_dec = FrameDecoder::default();

        Ok(())
    }

    /// Hands out what was decoded.
    pub fn into_gif(self) -> (gif: DecodedGif)
        ensures
            gif.wf(),
            gif@ == self@.gif(),
    {
        DecodedGif {
            canvas_width: self.canvas_width,
            canvas_height: self.canvas_height,
            max_loops: self.max_loops,
            num_frames: self.frames.len(),
            frames: self.frames,
        }
    }
}

/// Decodes a GIF stream held in memory into its frames, each the whole
/// canvas as it looks while the frame is shown.
pub fn decode(data: Box<[u8]>) -> (r: Result<DecodedGif, DecodeError>)
    ensures
        match decoded(data@) {
            Ok(gif) => r matches Ok(got) && got.wf() && got@ == gif,
            Err(failure) => r matches Err(e) && e@ == failure,
        },
{
    let cursor = Reader::new(&data);
    let mut decoder = Decoder::new(cursor)?;
    decoder.read_body()?;
    Ok(decoder.into_gif())
}

} // verus!
