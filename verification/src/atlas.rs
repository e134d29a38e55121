//! Atlases: a tileset image plus a tile grid size.  The tile grid's
//! dimensions derive from the image size.

use vstd::prelude::*;

use crate::codec::{le16, push_u16_le, rd_u16_le, read_u16_le};
use crate::errors::AssetLoadError;

verus! {

/// One pixel, red-green-blue-alpha.
#[derive(Clone, Copy, PartialEq, Eq, Structural, Debug)]
pub struct Rgba {
    pub r: u8,
    pub g: u8,
    pub b: u8,
    pub a: u8,
}

/// A two-dimensional grid of pixels, row-major.
pub struct Image {
    pub width: u32,
    pub height: u32,
    pub pixels: Vec<Rgba>,
}

impl Image {
    /// Well-formed: one pixel per grid cell.
    pub open spec fn wf(self) -> bool {
        self.pixels@.len() == self.width as int * self.height as int
    }

    /// The pixel of a grid cell.
    pub open spec fn spec_pixel(self, x: int, y: int) -> Rgba {
        self.pixels@[y * self.width as int + x]
    }

    /// The pixel of a grid cell.
    pub fn get_pixel(&self, x: u32, y: u32) -> (r: Rgba)
        requires
            self.wf(),
            x < self.width,
            y < self.height,
        ensures
            r == self.spec_pixel(x as int, y as int),
    {
        proof {
            assert(y * self.width as int + x < self.width as int * self.height as int)
                by (nonlinear_arith)
                requires
                    x < self.width as int && y < self.height as int && 0 <= x && 0 <= y,
            ;
            assert(0 <= y * self.width as int) by (nonlinear_arith)
                requires
                    0 <= y && 0 <= self.width as int,
            ;
        }
        let _len_fits = self.pixels.len();
        self.pixels[(y as usize) * (self.width as usize) + (x as usize)]
    }
}

/// A tileset: an image subdivided into a uniform grid of equally-sized
/// tiles.  The image width need not be an exact multiple of the tile width;
/// a ragged remainder is simply outside the grid (likewise for heights).
pub struct Atlas {
    /// The image file this atlas was loaded from; the sidecar metadata file
    /// stands beside it.
    pub path: String,
    pub image: Image,
    /// Tile width and height in pixels, each at least one.
    pub tile_size: (u16, u16),
}

impl Atlas {
    /// Well-formed: the image is, and no tile dimension is zero (a zero
    /// would make the grid undefined; callers must keep it at one or more).
    pub open spec fn wf(self) -> bool {
        &&& self.image.wf()
        &&& self.tile_size.0 >= 1
        &&& self.tile_size.1 >= 1
    }

    /// How many tiles fit across: image width over tile width, rounded
    /// down.
    pub open spec fn spec_tiles_wide(self) -> int {
        self.image.width as int / self.tile_size.0 as int
    }

    /// How many tiles fit down.
    pub open spec fn spec_tiles_high(self) -> int {
        self.image.height as int / self.tile_size.1 as int
    }

    /// How many tiles fit across.  The result must fit the export format's
    /// two bytes.
    pub fn width(&self) -> (r: u16)
        requires
            self.wf(),
            self.spec_tiles_wide() <= u16::MAX,
        ensures
            r == self.spec_tiles_wide(),
    {
        (self.image.width / (self.tile_size.0 as u32)) as u16
    }

    /// How many tiles fit down.
    pub fn height(&self) -> (r: u16)
        requires
            self.wf(),
            self.spec_tiles_high() <= u16::MAX,
        ensures
            r == self.spec_tiles_high(),
    {
        (self.image.height / (self.tile_size.1 as u32)) as u16
    }

    /// An atlas over a whole image: a degenerate one-by-one tile grid,
    /// meaning "not yet tiled".  This is the default when no sidecar
    /// metadata is persisted beside the image.
    pub fn with_whole_image(path: String, image: Image) -> (r: Atlas)
        requires
            image.wf(),
            1 <= image.width <= u16::MAX,
            1 <= image.height <= u16::MAX,
        ensures
            r.path == path,
            r.image == image,
            r.tile_size.0 == image.width,
            r.tile_size.1 == image.height,
            r.wf(),
    {
        let tile_size = (image.width as u16, image.height as u16);
        Atlas { path, image, tile_size }
    }

    /// The bytes of the sidecar metadata record: the tile width and height,
    /// two little-endian bytes each.
    pub open spec fn enc_sidecar(tile_size: (u16, u16)) -> Seq<u8> {
        le16(tile_size.0) + le16(tile_size.1)
    }

    /// What a sidecar record decodes to: the tile size, when the bytes are
    /// exactly one record and neither dimension is zero.
    pub open spec fn dec_sidecar(b: Seq<u8>) -> Option<(u16, u16)> {
        match rd_u16_le(b, 0) {
            Some((w, p)) => match rd_u16_le(b, p) {
                Some((h, q)) => {
                    if q == b.len() && w >= 1 && h >= 1 {
                        Some((w, h))
                    } else {
                        None
                    }
                },
                _ => None,
            },
            _ => None,
        }
    }

    /// Encodes the sidecar metadata record.  What this writes,
    /// `decode_sidecar` reads back unchanged.
    pub fn encode_sidecar(&self) -> (r: Vec<u8>)
        ensures
            r@ == Atlas::enc_sidecar(self.tile_size),
            self.wf() ==> Atlas::dec_sidecar(r@) == Some(self.tile_size),
    {
        let mut out: Vec<u8> = Vec::new();
        push_u16_le(&mut out, self.tile_size.0);
        push_u16_le(&mut out, self.tile_size.1);
        assert(out@ =~= Atlas::enc_sidecar(self.tile_size));
        proof {
            if self.wf() {
                lemma_sidecar_round_trip(self.tile_size);
            }
        }
        out
    }

    /// Decodes a sidecar record into an atlas over the given image.
    pub fn decode_sidecar(path: String, image: Image, bytes: &Vec<u8>) -> (r: Result<
        Atlas,
        AssetLoadError,
    >)
        requires
            image.wf(),
        ensures
            match r {
                Ok(a) => {
                    &&& Atlas::dec_sidecar(bytes@) == Some(a.tile_size)
                    &&& a.path == path
                    &&& a.image == image
                    &&& a.wf()
                },
                Err(e) => Atlas::dec_sidecar(bytes@) is None && e == AssetLoadError::Malformed,
            },
    {
        let first = read_u16_le(bytes, 0);
        match first {
            Some((w, p)) => {
                let second = read_u16_le(bytes, p);
                match second {
                    Some((h, q)) => {
                        if q == bytes.len() && w >= 1 && h >= 1 {
                            Ok(Atlas { path, image, tile_size: (w, h) })
                        } else {
                            Err(AssetLoadError::Malformed)
                        }
                    },
                    _ => Err(AssetLoadError::Malformed),
                }
            },
            _ => Err(AssetLoadError::Malformed),
        }
    }
}

/// Decoding an encoded sidecar record yields the tile size back.
pub proof fn lemma_sidecar_round_trip(tile_size: (u16, u16))
    requires
        tile_size.0 >= 1,
        tile_size.1 >= 1,
    ensures
        Atlas::dec_sidecar(Atlas::enc_sidecar(tile_size)) == Some(tile_size),
{
    let b = Atlas::enc_sidecar(tile_size);
    assert(b =~= Seq::<u8>::empty() + le16(tile_size.0) + le16(tile_size.1));
    crate::codec::lemma_rd_le16(Seq::empty(), tile_size.0, le16(tile_size.1));
    assert(b =~= le16(tile_size.0) + le16(tile_size.1) + Seq::<u8>::empty());
    crate::codec::lemma_rd_le16(le16(tile_size.0), tile_size.1, Seq::empty());
}

} // verus!
