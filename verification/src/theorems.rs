//! What holds of every stream: laws of the decoder, each proved from the
//! model of the format.

use vstd::prelude::*;

use crate::blocks::{
    lemma_chain_in_prefix, lemma_sub_blocks_end, lemma_truncated_chain, sub_blocks,
};
use crate::canvas::{lemma_frame_in_prefix, lemma_null_palette_paints, Raster};
use crate::color::{lemma_palette_in_prefix, null_palette, Color};
use crate::decoder::{
    decoded, disposed, header, lemma_extension_advances, lemma_image_advances, netscape_id,
    Decoding, GifView,
};
use crate::error::{eof, Failure};
use crate::frame::{
    has_palette, lemma_descriptor_in_prefix, palette_size, rgba_bytes, DisposalMethod, FrameState,
};
use crate::lzw::Lzw;
use crate::reader::le_u16;

verus! {

impl Decoding {
    /// Every frame shows the whole canvas, four bytes for each pixel.
    pub open spec fn frames_sized(self) -> bool {
        forall|i: int|
            0 <= i < self.frames.len() ==> (#[trigger] self.frames[i]).image_data.len() == 4
                * self.canvas_width * self.canvas_height
    }

    /// Whether `next` can come after this state: the canvas keeps its size
    /// and the global palette stays, and the frames that were decoded stay
    /// the first of all.
    pub open spec fn grows_to(self, next: Decoding) -> bool {
        &&& next.canvas_width == self.canvas_width
        &&& next.canvas_height == self.canvas_height
        &&& next.global_palette == self.global_palette
        &&& next.bg_color == self.bg_color
        &&& self.frames.len() <= next.frames.len()
        &&& next.frames.take(self.frames.len() as int) == self.frames
    }
}

/// What the disposal methods make of the running canvas, pixel by pixel.
/// Keeping leaves the canvas as it is shown with the frame on it. Restoring
/// the previous canvas leaves the canvas as it was before the frame.
/// Restoring the background makes the frame's rectangle transparent and
/// leaves the rest as it is shown.
pub proof fn lemma_disposal(working: Raster, picture: Raster, frame: FrameState, i: int)
    requires
        working.wf(),
        picture.width == frame.width,
        picture.height == frame.height,
        0 <= i < working.pixels.len(),
    ensures
        ({
            let shown = working.blit(picture, frame.top as nat, frame.left as nat);
            let after = disposed(working, shown, frame);
            match frame.disposal {
                DisposalMethod::Keep => after == shown,
                DisposalMethod::RestorePrevious => after == working,
                DisposalMethod::RestoreBackground => after.pixels[i] == if working.in_rect(
                    i,
                    frame.top as nat,
                    frame.left as nat,
                    frame.width as nat,
                    frame.height as nat,
                ) {
                    Color::spec_transparent()
                } else {
                    shown.pixels[i]
                },
            }
        }),
{
}

/// What an image leaves on the running canvas for the frames that follow.
/// With the method that keeps, the canvas is what the image's frame shows.
/// With the method that restores the previous canvas, it is what it was
/// before the image. With the method that restores the background, the
/// rectangle of the frame is transparent and the rest is what it was before
/// the image.
pub proof fn lemma_image_disposes(s: Decoding, data: Seq<u8>, i: int)
    requires
        s.wf(),
        0 <= i < s.working.pixels.len(),
    ensures
        s.image(data) matches Ok(next) ==> {
            &&& s.frame.image_descriptor(data, s.pos) matches Ok((frame, _))
            &&& match frame.disposal {
                DisposalMethod::Keep => next.frames.last().image_data == rgba_bytes(
                    next.working.pixels,
                ),
                DisposalMethod::RestorePrevious => next.working == s.working,
                DisposalMethod::RestoreBackground => next.working.pixels[i] == if s.working.in_rect(
                    i,
                    frame.top as nat,
                    frame.left as nat,
                    frame.width as nat,
                    frame.height as nat,
                ) {
                    Color::spec_transparent()
                } else {
                    s.working.pixels[i]
                },
            }
        },
{
}

/// An image without a palette of its own, in a stream without a global one,
/// is painted with the null palette, and so never fails for want of a color.
pub proof fn lemma_missing_palette(s: Decoding, data: Seq<u8>)
    requires
        s.global_palette.is_none(),
        s.frame.image_descriptor(data, s.pos) matches Ok((frame, _)) && frame.palette.is_none(),
    ensures
        s.frame.image_descriptor(data, s.pos) matches Ok((frame, pos)) && (Decoding {
            frame,
            pos,
            ..s
        }).palette() == null_palette(),
        s.image(data) != Err::<Decoding, Failure>(Failure::ColorTableOutOfBounds),
{
    let (frame, pos) = s.frame.image_descriptor(data, s.pos)->Ok_0;
    if 0 <= pos < data.len() {
        if let Some((blocks, _)) = sub_blocks(data, pos + 1) {
            let (indices, failure) = Lzw::initial(
                blocks.flatten(),
                data[pos] as nat,
            ).drain();
            lemma_null_palette_paints(
                indices,
                failure,
                frame.transparency,
                frame.width as nat,
                frame.height as nat,
            );
        }
    }
}

/// An extension leaves the canvas and the frames as they are. The loop count
/// changes only with an application extension whose first sub-block is the
/// looping identifier and whose second has three bytes or more.
pub proof fn lemma_extension_keeps(s: Decoding, data: Seq<u8>)
    ensures
        s.extension(data) matches Ok(next) ==> {
            &&& s.grows_to(next)
            &&& next.frames == s.frames
            &&& next.working == s.working
            &&& next.max_loops != s.max_loops ==> {
                &&& data[s.pos] == 0xff
                &&& sub_blocks(data, s.pos + 1) matches Some((blocks, _))
                &&& blocks.len() >= 2
                &&& blocks[0] == netscape_id()
                &&& blocks[1].len() >= 3
                &&& next.max_loops == Some(le_u16(blocks[1].subrange(1, 3)))
            }
        },
{
    if let Ok(next) = s.extension(data) {
        assert(next.frames.take(s.frames.len() as int) =~= s.frames);
    }
}

/// An image adds one frame, which shows the whole canvas and has the place,
/// the size and the delay that its descriptor and the graphics control
/// extensions before it gave. The loop count stays.
pub proof fn lemma_image_keeps(s: Decoding, data: Seq<u8>)
    requires
        s.wf(),
    ensures
        s.image(data) matches Ok(next) ==> {
            &&& next.wf()
            &&& s.grows_to(next)
            &&& next.max_loops == s.max_loops
            &&& next.frames.len() == s.frames.len() + 1
            &&& next.frames.last().image_data.len() == 4 * s.canvas_width * s.canvas_height
            &&& s.frame.image_descriptor(data, s.pos) matches Ok((frame, _))
            &&& next.frames.last().width == frame.width
            &&& next.frames.last().height == frame.height
            &&& next.frames.last().top == frame.top
            &&& next.frames.last().left == frame.left
            &&& next.frames.last().delay == frame.delay
        },
{
    if let Ok(next) = s.image(data) {
        assert(next.frames.take(s.frames.len() as int) =~= s.frames);
        assert(s.canvas_width * s.canvas_height == s.working.width * s.working.height);
        assert(4 * s.working.pixels.len() == 4 * (s.working.width * s.working.height));
        assert(4 * (s.canvas_width * s.canvas_height) == 4 * s.canvas_width * s.canvas_height)
            by (nonlinear_arith);
    }
}

/// Through the whole body the canvas keeps its size, the frames that were
/// decoded stay, and every frame shows the whole canvas.
pub proof fn lemma_body_keeps(s: Decoding, data: Seq<u8>)
    requires
        s.wf(),
        s.frames_sized(),
    ensures
        s.body(data) matches Ok(end) ==> end.wf() && end.frames_sized() && s.grows_to(end),
    decreases data.len() - s.pos,
{
    if 0 <= s.pos < data.len() {
        let sigil = data[s.pos];
        let inside = Decoding { pos: s.pos + 1, ..s };
        if sigil == 0x21 {
            if let Ok(next) = inside.extension(data) {
                lemma_extension_advances(inside, data);
                lemma_extension_keeps(inside, data);
                lemma_body_keeps(next, data);
                if let Ok(end) = next.body(data) {
                    assert(end.frames.take(s.frames.len() as int) =~= next.frames.take(
                        s.frames.len() as int,
                    ));
                }
            }
        } else if sigil == 0x2c {
            if let Ok(next) = inside.image(data) {
                lemma_image_advances(inside, data);
                lemma_image_keeps(inside, data);
                assert(next.frames_sized()) by {
                    assert forall|i: int| 0 <= i < next.frames.len() implies (
                    #[trigger] next.frames[i]).image_data.len() == 4 * next.canvas_width
                        * next.canvas_height by {
                        if i < s.frames.len() {
                            assert(next.frames[i] == next.frames.take(s.frames.len() as int)[i]);
                        }
                    }
                }
                lemma_body_keeps(next, data);
                if let Ok(end) = next.body(data) {
                    assert(end.frames.take(s.frames.len() as int) =~= next.frames.take(
                        s.frames.len() as int,
                    )) by {
                        assert forall|i: int| 0 <= i < s.frames.len() implies end.frames[i]
                            == next.frames[i] by {
                            assert(end.frames.take(next.frames.len() as int)[i] == next.frames[i]);
                        }
                    }
                }
            }
        } else if sigil == 0x3b {
            assert(inside.frames.take(s.frames.len() as int) =~= s.frames);
        }
    } else {
        assert(s.frames.take(s.frames.len() as int) =~= s.frames);
    }
}

/// The canvas of a decoded stream has the size that the logical screen
/// descriptor gives, which stands in bytes 6 to 9 of the stream, and every
/// frame holds four bytes for each pixel of that canvas.
pub proof fn lemma_decoded_canvas(data: Seq<u8>)
    ensures
        decoded(data) matches Ok(gif) ==> {
            &&& data.len() >= 13
            &&& gif.canvas_width == le_u16(data.subrange(6, 8))
            &&& gif.canvas_height == le_u16(data.subrange(8, 10))
            &&& forall|i: int|
                0 <= i < gif.frames.len() ==> (#[trigger] gif.frames[i]).image_data.len() == 4
                    * gif.canvas_width * gif.canvas_height
        },
{
    if let Ok(start) = header(data, 0) {
        assert(start.working.pixels.len() == start.canvas_width * start.canvas_height);
        lemma_body_keeps(start, data);
    }
}

impl Decoding {
    /// Whether the input ends within the data of a frame: the blocks from
    /// the read position on are whole up to an image whose descriptor is
    /// whole, and the input ends before the chain of that image's data does.
    pub open spec fn ends_in_frame_data(self, data: Seq<u8>) -> bool
        decreases data.len() - self.pos,
    {
        if self.pos < 0 || self.pos >= data.len() {
            false
        } else {
            let sigil = data[self.pos];
            let inside = Decoding { pos: self.pos + 1, ..self };
            if sigil == 0x21 {
                match inside.extension(data) {
                    Err(_) => false,
                    Ok(next) => {
                        proof {
                            lemma_extension_advances(inside, data);
                        }
                        next.ends_in_frame_data(data)
                    },
                }
            } else if sigil == 0x2c {
                match inside.frame.image_descriptor(data, inside.pos) {
                    Err(_) => false,
                    Ok((_, pos)) => if pos >= data.len() || sub_blocks(data, pos + 1).is_none() {
                        true
                    } else {
                        match inside.image(data) {
                            Err(_) => false,
                            Ok(next) => {
                                proof {
                                    lemma_image_advances(inside, data);
                                }
                                next.ends_in_frame_data(data)
                            },
                        }
                    },
                }
            } else {
                false
            }
        }
    }
}

/// A body that ends within the data of a frame fails with the end of the
/// input, and with no other failure.
pub proof fn lemma_truncated_body(s: Decoding, data: Seq<u8>)
    requires
        s.ends_in_frame_data(data),
    ensures
        s.body(data) == Err::<Decoding, Failure>(eof()),
    decreases data.len() - s.pos,
{
    let sigil = data[s.pos];
    let inside = Decoding { pos: s.pos + 1, ..s };
    if sigil == 0x21 {
        let next = inside.extension(data)->Ok_0;
        lemma_extension_advances(inside, data);
        lemma_truncated_body(next, data);
    } else {
        let (_, pos) = inside.frame.image_descriptor(data, inside.pos)->Ok_0;
        if !(pos >= data.len() || sub_blocks(data, pos + 1).is_none()) {
            let next = inside.image(data)->Ok_0;
            lemma_image_advances(inside, data);
            lemma_truncated_body(next, data);
        }
    }
}

/// A stream that ends within the data of a frame fails with the end of the
/// input: not with a failure of the decompressor, and not with one of the
/// frame's size or colors.
pub proof fn lemma_truncated_stream(data: Seq<u8>)
    requires
        header(data, 0) matches Ok(start) && start.ends_in_frame_data(data),
    ensures
        decoded(data) == Err::<GifView, Failure>(eof()),
{
    lemma_truncated_body(header(data, 0)->Ok_0, data);
}

/// A header that lies within a prefix of the input reads the same there.
pub proof fn lemma_header_in_prefix(data: Seq<u8>, cut: int)
    requires
        cut <= data.len(),
        header(data, 0) matches Ok(start) && start.pos <= cut,
    ensures
        header(data.take(cut), 0) == header(data, 0),
{
    let short = data.take(cut);
    assert(short.subrange(0, 3) =~= data.subrange(0, 3));
    assert(short.subrange(3, 6) =~= data.subrange(3, 6));
    assert(short.subrange(6, 8) =~= data.subrange(6, 8));
    assert(short.subrange(8, 10) =~= data.subrange(8, 10));
    if has_palette(data[10]) {
        lemma_palette_in_prefix(data, 13, palette_size(data[10]), cut);
    }
}

/// An extension that lies within a prefix of the input reads the same
/// there.
pub proof fn lemma_extension_in_prefix(s: Decoding, data: Seq<u8>, cut: int)
    requires
        0 <= s.pos,
        cut <= data.len(),
        s.extension(data) matches Ok(next) && next.pos <= cut,
    ensures
        s.extension(data.take(cut)) == s.extension(data),
{
    lemma_sub_blocks_end(data, s.pos + 1);
    lemma_chain_in_prefix(data, s.pos + 1, cut);
}

/// An image that lies within a prefix of the input reads the same there.
pub proof fn lemma_image_in_prefix(s: Decoding, data: Seq<u8>, cut: int)
    requires
        0 <= s.pos,
        cut <= data.len(),
        s.image(data) matches Ok(next) && next.pos <= cut,
    ensures
        s.image(data.take(cut)) == s.image(data),
{
    let (frame, pos) = s.frame.image_descriptor(data, s.pos)->Ok_0;
    lemma_sub_blocks_end(data, pos + 1);
    lemma_descriptor_in_prefix(s.frame, data, s.pos, cut);
    lemma_frame_in_prefix(
        data,
        pos,
        (Decoding { frame, pos, ..s }).palette(),
        frame.transparency,
        frame.width as nat,
        frame.height as nat,
        cut,
    );
}

impl Decoding {
    /// Whether the place `cut` lies within the data of a frame of the body
    /// that starts at the read position: the blocks before the frame are
    /// whole, and `cut` lies behind the frame's descriptor and before the
    /// end of the chain of its data.
    pub open spec fn cuts_frame_data(self, data: Seq<u8>, cut: int) -> bool
        decreases data.len() - self.pos,
    {
        if self.pos < 0 || self.pos >= data.len() {
            false
        } else {
            let sigil = data[self.pos];
            let inside = Decoding { pos: self.pos + 1, ..self };
            if sigil == 0x21 {
                match inside.extension(data) {
                    Err(_) => false,
                    Ok(next) => {
                        proof {
                            lemma_extension_advances(inside, data);
                        }
                        next.pos <= cut && next.cuts_frame_data(data, cut)
                    },
                }
            } else if sigil == 0x2c {
                match inside.frame.image_descriptor(data, inside.pos) {
                    Err(_) => false,
                    Ok((_, pos)) => match sub_blocks(data, pos + 1) {
                        None => false,
                        Some((_, end)) => if pos <= cut < end {
                            true
                        } else {
                            match inside.image(data) {
                                Err(_) => false,
                                Ok(next) => {
                                    proof {
                                        lemma_image_advances(inside, data);
                                    }
                                    next.pos <= cut && next.cuts_frame_data(data, cut)
                                },
                            }
                        },
                    },
                }
            } else {
                false
            }
        }
    }
}

/// A body that is cut off within the data of one of its frames ends within
/// the data of a frame.
pub proof fn lemma_cut_body(s: Decoding, data: Seq<u8>, cut: int)
    requires
        0 <= s.pos,
        cut <= data.len(),
        s.cuts_frame_data(data, cut),
    ensures
        s.ends_in_frame_data(data.take(cut)),
    decreases data.len() - s.pos,
{
    let short = data.take(cut);
    let sigil = data[s.pos];
    let inside = Decoding { pos: s.pos + 1, ..s };
    if sigil == 0x21 {
        let next = inside.extension(data)->Ok_0;
        lemma_extension_advances(inside, data);
        lemma_extension_in_prefix(inside, data, cut);
        lemma_cut_body(next, data, cut);
    } else {
        let (_, pos) = inside.frame.image_descriptor(data, inside.pos)->Ok_0;
        let end = sub_blocks(data, pos + 1)->Some_0.1;
        lemma_sub_blocks_end(data, pos + 1);
        if pos <= cut < end {
            lemma_descriptor_in_prefix(inside.frame, data, inside.pos, cut);
            if pos < cut {
                lemma_truncated_chain(data, pos + 1, cut);
            }
        } else {
            let next = inside.image(data)->Ok_0;
            lemma_image_advances(inside, data);
            lemma_image_in_prefix(inside, data, cut);
            lemma_descriptor_in_prefix(inside.frame, data, inside.pos, cut);
            lemma_chain_in_prefix(data, pos + 1, cut);
            lemma_cut_body(next, data, cut);
        }
    }
}

/// A stream that is cut off within the data of one of its frames fails with
/// the end of the input, and with no other failure.
pub proof fn lemma_cut_stream(data: Seq<u8>, cut: int)
    requires
        cut <= data.len(),
        header(data, 0) matches Ok(start) && start.pos <= cut && start.cuts_frame_data(data, cut),
    ensures
        decoded(data.take(cut)) == Err::<GifView, Failure>(eof()),
{
    let start = header(data, 0)->Ok_0;
    lemma_header_in_prefix(data, cut);
    lemma_cut_body(start, data, cut);
    lemma_truncated_stream(data.take(cut));
}

impl Decoding {
    /// Whether the extension whose label is at the read position is a
    /// looping extension: an application extension whose first sub-block is
    /// the looping identifier and whose second has three bytes or more.
    pub open spec fn at_looping_extension(self, data: Seq<u8>) -> bool {
        &&& 0 <= self.pos < data.len()
        &&& data[self.pos] == 0xff
        &&& sub_blocks(data, self.pos + 1) matches Some((blocks, _))
        &&& blocks.len() >= 2
        &&& blocks[0] == netscape_id()
        &&& blocks[1].len() >= 3
    }

    /// Whether the body from the read position on holds a looping
    /// extension.
    pub open spec fn has_looping_extension(self, data: Seq<u8>) -> bool
        decreases data.len() - self.pos,
    {
        if self.pos < 0 || self.pos >= data.len() {
            false
        } else {
            let sigil = data[self.pos];
            let inside = Decoding { pos: self.pos + 1, ..self };
            if sigil == 0x21 {
                match inside.extension(data) {
                    Err(_) => false,
                    Ok(next) => {
                        proof {
                            lemma_extension_advances(inside, data);
                        }
                        inside.at_looping_extension(data) || next.has_looping_extension(data)
                    },
                }
            } else if sigil == 0x2c {
                match inside.image(data) {
                    Err(_) => false,
                    Ok(next) => {
                        proof {
                            lemma_image_advances(inside, data);
                        }
                        next.has_looping_extension(data)
                    },
                }
            } else {
                false
            }
        }
    }
}

/// A body without a looping extension leaves the loop count as it is.
pub proof fn lemma_loop_count_stays(s: Decoding, data: Seq<u8>)
    requires
        s.wf(),
        !s.has_looping_extension(data),
    ensures
        s.body(data) matches Ok(end) ==> end.max_loops == s.max_loops,
    decreases data.len() - s.pos,
{
    if 0 <= s.pos < data.len() {
        let sigil = data[s.pos];
        let inside = Decoding { pos: s.pos + 1, ..s };
        if sigil == 0x21 {
            if let Ok(next) = inside.extension(data) {
                lemma_extension_advances(inside, data);
                lemma_extension_keeps(inside, data);
                lemma_loop_count_stays(next, data);
            }
        } else if sigil == 0x2c {
            if let Ok(next) = inside.image(data) {
                lemma_image_advances(inside, data);
                lemma_image_keeps(inside, data);
                lemma_loop_count_stays(next, data);
            }
        }
    }
}

/// A stream without a looping extension decodes without a loop count.
pub proof fn lemma_no_loop_count(data: Seq<u8>)
    requires
        header(data, 0) matches Ok(start) && !start.has_looping_extension(data),
    ensures
        decoded(data) matches Ok(gif) ==> gif.max_loops.is_none(),
{
    let start = header(data, 0)->Ok_0;
    assert(start.working.pixels.len() == start.canvas_width * start.canvas_height);
    lemma_loop_count_stays(start, data);
}

} // verus!
