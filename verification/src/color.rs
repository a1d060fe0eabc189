//! Colors and palettes.

use vstd::prelude::*;

use crate::error::{eof, DecodeError, Failure};
use crate::reader::Reader;

verus! {

/// An RGB triple plus a flag that tells whether the pixel takes part in
/// compositing. The flag is `true` for an opaque color.
#[derive(Clone, Copy, Debug, PartialEq, Eq, Structural)]
pub struct Color(pub u8, pub u8, pub u8, pub bool);

/// The four RGBA bytes that stand for a color: a transparent color is all
/// zeroes, an opaque one carries its channels and full alpha.
pub open spec fn rgba_of(c: Color) -> Seq<u8> {
    if c.3 {
        seq![c.0, c.1, c.2, 255u8]
    } else {
        seq![0u8, 0u8, 0u8, 0u8]
    }
}

impl Color {
    /// The color that every transparent pixel holds.
    pub open spec fn spec_transparent() -> Color {
        Color(0, 0, 0, false)
    }

    /// Opaque black, the color of an unset palette entry.
    pub open spec fn spec_default() -> Color {
        Color(0, 0, 0, true)
    }

    /// The opaque color with the given channels.
    pub fn rgb(r: u8, g: u8, b: u8) -> (c: Self)
        ensures
            c == Color(r, g, b, true),
    {
        Color(r, g, b, true)
    }

    /// The color of a pixel that lets through what is below it.
    pub fn transparent() -> (c: Self)
        ensures
            c == Self::spec_transparent(),
    {
        Color(0, 0, 0, false)
    }

    /// Whether the color is left out in compositing.
    pub fn is_transparent(&self) -> (t: bool)
        ensures
            t == !self.3,
    {
        !self.3
    }

    /// The color in RGBA order.
    pub fn into_arr(self) -> (arr: [u8; 4])
        ensures
            arr@ == rgba_of(self),
    {
        let arr: [u8; 4] = if self.3 {
            [self.0, self.1, self.2, 255]
        } else {
            [0; 4]
        };
        assert(arr@ =~= rgba_of(self));
        arr
    }
}

impl Default for Color {
    /// Opaque black.
    fn default() -> (c: Self)
        ensures
            c == Color::spec_default(),
    {
        Color(0, 0, 0, true)
    }
}

/// A palette: an ordered list of colors, looked up by index.
pub struct ColorTable {
    pub table: Vec<Color>,
}

impl View for ColorTable {
    type V = Seq<Color>;

    open spec fn view(&self) -> Seq<Color> {
        self.table@
    }
}

/// The palette used when a frame has neither a local nor a global one:
/// 256 entries of opaque black.
pub open spec fn null_palette() -> Seq<Color> {
    Seq::new(256, |i: int| Color::spec_default())
}

/// The palette of `size` opaque colors stored at `pos` as RGB triples, or
/// nothing where the input is too short for it.
pub open spec fn palette_at(data: Seq<u8>, pos: int, size: nat) -> Option<Seq<Color>> {
    if pos + 3 * size <= data.len() {
        Some(
            Seq::new(
                size,
                |i: int| Color(data[pos + 3 * i], data[pos + 3 * i + 1], data[pos + 3 * i + 2], true),
            ),
        )
    } else {
        None
    }
}

/// A palette that lies within a prefix of the input is the same palette
/// there.
pub proof fn lemma_palette_in_prefix(data: Seq<u8>, pos: int, size: nat, cut: int)
    requires
        0 <= pos,
        pos + 3 * size <= cut <= data.len(),
    ensures
        palette_at(data.take(cut), pos, size) == palette_at(data, pos, size),
{
    assert(palette_at(data.take(cut), pos, size).unwrap() =~= palette_at(data, pos, size).unwrap());
}

impl ColorTable {
    /// Reads `size` RGB triples as opaque colors.
    ///
    /// Fails with end-of-input exactly when fewer than `3 * size` bytes are
    /// left; the position is then unspecified.
    pub fn read(rdr: &mut Reader, size: usize) -> (r: Result<Self, DecodeError>)
        requires
            old(rdr).wf(),
        ensures
            final(rdr).wf(),
            final(rdr).data == old(rdr).data,
            match palette_at(old(rdr).data@, old(rdr).pos as int, size as nat) {
                Some(colors) => r matches Ok(ct) && ct@ == colors && final(rdr).pos == old(rdr).pos
                    + 3 * size,
                None => r matches Err(e) && e@ == eof(),
            },
    {
        let mut table: Vec<Color> = Vec::new();
        let ghost data = rdr.data@;
        let ghost start = rdr.pos as int;
        let mut i: usize = 0;
        while i < size
            invariant
                rdr.wf(),
                rdr.data == old(rdr).data,
                data == rdr.data@,
                start == old(rdr).pos,
                i <= size,
                rdr.pos == start + 3 * i,
                table@.len() == i,
                forall|j: int|
                    0 <= j < i ==> #[trigger] table@[j] == Color(
                        data[start + 3 * j],
                        data[start + 3 * j + 1],
                        data[start + 3 * j + 2],
                        true,
                    ),
            decreases size - i,
        {
            let buf = rdr.read_exact(3)?;
            table.push(Color::rgb(buf[0], buf[1], buf[2]));
            i += 1;
        }
        assert(table@ =~= palette_at(data, start, size as nat).unwrap());
        Ok(ColorTable { table })
    }

    /// The color at `index`, which must lie within the palette.
    pub fn get(&self, index: usize) -> (r: Result<Color, DecodeError>)
        ensures
            index < self@.len() ==> r == Ok::<Color, DecodeError>(self@[index as int]),
            index >= self@.len() ==> (r matches Err(e) && e@ == Failure::ColorTableOutOfBounds),
    {
        if index < self.table.len() {
            Ok(self.table[index])
        } else {
            Err(DecodeError::ColorTableOutOfBounds)
        }
    }

    /// The palette for frames that come without any: 256 times opaque
    /// black.
    pub fn null() -> (ct: Self)
        ensures
            ct@ == null_palette(),
    {
        let table = vec![Color::default(); 256];
        assert(table@ =~= null_palette());
        ColorTable { table }
    }
}

} // verus!
