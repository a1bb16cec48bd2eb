//! The constants, headers and handles of the TNG format.

use vstd::prelude::*;

verus! {

/// The first eight bytes of every stream.
pub const TNG_MAGIC: [u8; 8] = [137, 84, 78, 71, 13, 10, 26, 10];

/// Image header chunk, "IHDR".
pub const CHUNK_IHDR: [u8; 4] = [73, 72, 68, 82];

/// Tile grid header chunk, "THDR".
pub const CHUNK_THDR: [u8; 4] = [84, 72, 68, 82];

/// Tile data chunk, "TDAT".
pub const CHUNK_TDAT: [u8; 4] = [84, 68, 65, 84];

/// Tile index chunk, "tIDX".
pub const CHUNK_TIDX: [u8; 4] = [116, 73, 68, 88];

/// End chunk, "IEND".
pub const CHUNK_IEND: [u8; 4] = [73, 69, 78, 68];

pub const COMP_DEFLATE: u8 = 0x00;

pub const COMP_ZSTD: u8 = 0x10;

pub const COMP_BROTLI: u8 = 0x11;

pub const COMP_LZMA: u8 = 0x12;

/// Reserved; bodies are stored as they are.
pub const COMP_FFV1_GOLOMB: u8 = 0x13;

/// Reserved; bodies are stored as they are.
pub const COMP_FFV1_RANGE: u8 = 0x14;

/// Reserved; bodies are stored as they are.
pub const COMP_FFV1_STT: u8 = 0x15;

/// What an image is.
#[derive(Clone, Copy, Debug)]
pub struct TngImageInfo {
    pub width: u32,
    pub height: u32,
    pub bit_depth: u8,
    /// 0 grayscale, 2 RGB, 3 palette, 4 grayscale with alpha, 6 RGBA.
    pub color_type: u8,
}

/// How an image is cut into tiles, and how the tiles are stored. The last tile of each
/// row is `edge_width` wide and the last row of tiles `edge_height` high; all others
/// are `tile_width` by `tile_height`.
#[derive(Clone, Copy, Debug)]
pub struct TngTileConfig {
    pub tile_width: u32,
    pub tile_height: u32,
    pub num_tiles_x: u32,
    pub num_tiles_y: u32,
    pub edge_width: u32,
    pub edge_height: u32,
    pub threads: u32,
    pub compression_algo: u8,
    pub filter_algo: u8,
}

impl TngTileConfig {
    /// How wide tile `tx` of a row is.
    pub open spec fn width_of(self, tx: int) -> int {
        if tx == self.num_tiles_x - 1 {
            self.edge_width as int
        } else {
            self.tile_width as int
        }
    }

    /// How high the tiles of row `ty` are.
    pub open spec fn height_of(self, ty: int) -> int {
        if ty == self.num_tiles_y - 1 {
            self.edge_height as int
        } else {
            self.tile_height as int
        }
    }

    /// How wide tile `tx` of a row is.
    pub fn tile_width_at(&self, tx: u32) -> (width: usize)
        requires
            self.num_tiles_x >= 1,
        ensures
            width == self.width_of(tx as int),
    {
        if tx == self.num_tiles_x - 1 {
            self.edge_width as usize
        } else {
            self.tile_width as usize
        }
    }

    /// How high the tiles of row `ty` are.
    pub fn tile_height_at(&self, ty: u32) -> (height: usize)
        requires
            self.num_tiles_y >= 1,
        ensures
            height == self.height_of(ty as int),
    {
        if ty == self.num_tiles_y - 1 {
            self.edge_height as usize
        } else {
            self.tile_height as usize
        }
    }
}

/// An encoder handle.
pub struct TngEncoder {
    pub info: TngImageInfo,
    pub config: TngTileConfig,
    pub bytes_per_pixel: usize,
}

/// A decoder handle: what the headers have said so far.
pub struct TngDecoder {
    pub info: Option<TngImageInfo>,
    pub config: Option<TngTileConfig>,
    pub bytes_per_pixel: usize,
}

/// Why a run ended without a status code.
#[derive(Clone, Copy, Debug, PartialEq, Eq, Structural)]
pub enum TngFault {
    /// The threads that compress tiles could not be started.
    NoThreads,
    /// The tiles do not fit together, or their sizes cannot be handled.
    Malformed,
    /// More came in than a 64-bit number can count.
    Endless,
}

/// The samples of a pixel. Unknown colour types are taken for RGBA.
pub open spec fn channels(color_type: u8) -> int {
    if color_type == 0 || color_type == 3 {
        1
    } else if color_type == 4 {
        2
    } else if color_type == 2 {
        3
    } else {
        4
    }
}

/// The bytes of a pixel: its bits, rounded up to whole bytes.
pub open spec fn pixel_bytes(color_type: u8, bit_depth: u8) -> int {
    (channels(color_type) * bit_depth + 7) / 8
}

/// A pixel has at most 128 bytes.
pub proof fn lemma_pixel_bytes_bound(color_type: u8, bit_depth: u8)
    ensures
        0 <= pixel_bytes(color_type, bit_depth) <= 128,
{
    assert(0 <= channels(color_type) * bit_depth <= 4 * 255) by (nonlinear_arith)
        requires
            1 <= channels(color_type) <= 4,
            0 <= bit_depth <= 255,
    ;
}

/// The bytes of a pixel.
pub fn bytes_per_pixel(color_type: u8, bit_depth: u8) -> (bytes: usize)
    ensures
        bytes == pixel_bytes(color_type, bit_depth),
        bytes <= 128,
{
    let channels: usize = match color_type {
        0 => 1,
        2 => 3,
        3 => 1,
        4 => 2,
        6 => 4,
        _ => 4,
    };
    assert(channels * bit_depth <= 4 * 255) by (nonlinear_arith)
        requires
            channels <= 4,
            bit_depth <= 255,
    ;
    ((channels * bit_depth as usize) + 7) / 8
}

impl TngEncoder {
    /// The bytes of a pixel follow from the image information.
    pub open spec fn wf(self) -> bool {
        self.bytes_per_pixel == pixel_bytes(self.info.color_type, self.info.bit_depth)
    }
}

impl TngDecoder {
    /// Once an image header was seen, the bytes of a pixel follow from it.
    pub open spec fn wf(self) -> bool {
        self.info matches Some(info) ==> self.bytes_per_pixel == pixel_bytes(
            info.color_type,
            info.bit_depth,
        )
    }
}

/// Makes an encoder, if both arguments are there.
pub fn tng_encoder_init(info: Option<TngImageInfo>, config: Option<TngTileConfig>) -> (encoder:
    Option<TngEncoder>)
    ensures
        encoder is Some <==> info is Some && config is Some,
        encoder matches Some(encoder) ==> encoder.wf() && info == Some(encoder.info) && config
            == Some(encoder.config),
{
    match (info, config) {
        (Some(info), Some(config)) => {
            let bpp: usize = bytes_per_pixel(info.color_type, info.bit_depth);
            Some(TngEncoder { info, config, bytes_per_pixel: bpp })
        },
        _ => None,
    }
}

/// Makes a decoder that has seen nothing.
pub fn tng_decoder_init() -> (decoder: TngDecoder)
    ensures
        decoder.wf(),
        decoder == (TngDecoder { info: None, config: None, bytes_per_pixel: 0 }),
{
    TngDecoder { info: None, config: None, bytes_per_pixel: 0 }
}

/// A pixel takes the bytes that its bits need: one sample of gray or of a palette, three of
/// RGB, gray with alpha two, and RGBA and every other colour type four, each of `bit_depth`
/// bits, and no byte more.
pub proof fn pixel_takes_the_bytes_it_needs(color_type: u8, bit_depth: u8)
    ensures
        ({
            let bits = match color_type {
                0u8 => 1 * bit_depth,
                2u8 => 3 * bit_depth,
                3u8 => 1 * bit_depth,
                4u8 => 2 * bit_depth,
                _ => 4 * bit_depth,
            };
            let bytes = pixel_bytes(color_type, bit_depth);
            8 * bytes - 8 < bits <= 8 * bytes
        }),
{
}

/// The signature and the chunk types, byte by byte, and the codes of the compressors.
pub proof fn names_and_codes()
    ensures
        TNG_MAGIC@ == seq![0x89u8, 0x54, 0x4e, 0x47, 0x0d, 0x0a, 0x1a, 0x0a],
        CHUNK_IHDR@ == seq![0x49u8, 0x48, 0x44, 0x52],
        CHUNK_THDR@ == seq![0x54u8, 0x48, 0x44, 0x52],
        CHUNK_TDAT@ == seq![0x54u8, 0x44, 0x41, 0x54],
        CHUNK_TIDX@ == seq![0x74u8, 0x49, 0x44, 0x58],
        CHUNK_IEND@ == seq![0x49u8, 0x45, 0x4e, 0x44],
        COMP_DEFLATE == 0 && COMP_ZSTD == 16 && COMP_BROTLI == 17 && COMP_LZMA == 18,
        COMP_FFV1_GOLOMB == 19 && COMP_FFV1_RANGE == 20 && COMP_FFV1_STT == 21,
{
    assert(TNG_MAGIC@ =~= seq![0x89u8, 0x54, 0x4e, 0x47, 0x0d, 0x0a, 0x1a, 0x0a]);
    assert(CHUNK_IHDR@ =~= seq![0x49u8, 0x48, 0x44, 0x52]);
    assert(CHUNK_THDR@ =~= seq![0x54u8, 0x48, 0x44, 0x52]);
    assert(CHUNK_TDAT@ =~= seq![0x54u8, 0x44, 0x41, 0x54]);
    assert(CHUNK_TIDX@ =~= seq![0x74u8, 0x49, 0x44, 0x58]);
    assert(CHUNK_IEND@ =~= seq![0x49u8, 0x45, 0x4e, 0x44]);
}

/// All tiles of a row but the last have the width of a tile, and the last that of the edge; all
/// rows of tiles but the last have the height of a tile, and the last that of the edge.
pub proof fn only_the_last_is_an_edge(config: TngTileConfig, tx: int, ty: int)
    ensures
        0 <= tx && tx + 1 < config.num_tiles_x ==> config.width_of(tx) == config.tile_width,
        tx + 1 == config.num_tiles_x ==> config.width_of(tx) == config.edge_width,
        0 <= ty && ty + 1 < config.num_tiles_y ==> config.height_of(ty) == config.tile_height,
        ty + 1 == config.num_tiles_y ==> config.height_of(ty) == config.edge_height,
        ty >= config.num_tiles_y ==> config.height_of(ty) == config.tile_height,
{
}

} // verus!
