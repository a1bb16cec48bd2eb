//! Choices made on the way between image files and TNG streams.

use crate::channel::History;
use crate::decoder::{decode, layout_of, Decoded};
use crate::encoder::encoder_run;
use crate::filter::{FILT_AVG, FILT_NONE, FILT_PAETH, FILT_SUB, FILT_UP};
use crate::format::{
    TngDecoder, TngEncoder, TngImageInfo, TngTileConfig, COMP_BROTLI, COMP_DEFLATE, COMP_LZMA,
    COMP_ZSTD,
};
use crate::ppmpam::{Header, PpmPamMetadata};
use crate::roundtrip::{covers, decode_undoes_encode};
use crate::text::{append_decimal, chars_are, chars_of, decimal};
use crate::tile::tile_lost;
use vstd::prelude::*;
use vstd::string::StringExecFns;

verus! {

/// The text that `str::to_lowercase` makes of a text that is not ASCII.
pub uninterp spec fn wide_lowercase(text: Seq<char>) -> Seq<char>;

/// An ASCII character in lower case.
pub open spec fn ascii_lowercase(c: char) -> char {
    if 'A' <= c <= 'Z' {
        (c as int + 32) as char
    } else {
        c
    }
}

/// A text in lower case, from `str::to_lowercase`. Claimed: in ASCII text exactly the
/// letters from A to Z change, and for any other text the result depends on it alone.
#[verifier::external_body]
fn to_lowercase(text: &str) -> (lowered: String)
    ensures
        vstd::utf8::is_ascii_chars(text@) ==> lowered@ == text@.map_values(
            |c: char| ascii_lowercase(c),
        ),
        !vstd::utf8::is_ascii_chars(text@) ==> lowered@ == wide_lowercase(text@),
{
    text.to_lowercase()
}

/// A text in lower case.
pub open spec fn lowercase(text: Seq<char>) -> Seq<char> {
    if vstd::utf8::is_ascii_chars(text) {
        text.map_values(|c: char| ascii_lowercase(c))
    } else {
        wide_lowercase(text)
    }
}

/// The compressor of a name in lower case.
pub open spec fn compressor_of(name: Seq<char>) -> Option<u8> {
    if name == "deflate"@ {
        Some(COMP_DEFLATE)
    } else if name == "zstd"@ {
        Some(COMP_ZSTD)
    } else if name == "brotli"@ {
        Some(COMP_BROTLI)
    } else if name == "lzma"@ {
        Some(COMP_LZMA)
    } else {
        None
    }
}

/// The filter of a name in lower case.
pub open spec fn filter_of(name: Seq<char>) -> Option<u8> {
    if name == "none"@ {
        Some(FILT_NONE)
    } else if name == "sub"@ {
        Some(FILT_SUB)
    } else if name == "up"@ {
        Some(FILT_UP)
    } else if name == "avg"@ {
        Some(FILT_AVG)
    } else if name == "paeth"@ {
        Some(FILT_PAETH)
    } else {
        None
    }
}

/// The compressor of a name in lower case.
pub fn compressor_named(name: &str) -> (code: Option<u8>)
    ensures
        code == compressor_of(name@),
{
    let chars: Vec<char> = chars_of(name);
    if chars_are(&chars, "deflate") {
        Some(COMP_DEFLATE)
    } else if chars_are(&chars, "zstd") {
        Some(COMP_ZSTD)
    } else if chars_are(&chars, "brotli") {
        Some(COMP_BROTLI)
    } else if chars_are(&chars, "lzma") {
        Some(COMP_LZMA)
    } else {
        None
    }
}

/// The filter of a name in lower case.
pub fn filter_named(name: &str) -> (code: Option<u8>)
    ensures
        code == filter_of(name@),
{
    let chars: Vec<char> = chars_of(name);
    if chars_are(&chars, "none") {
        Some(FILT_NONE)
    } else if chars_are(&chars, "sub") {
        Some(FILT_SUB)
    } else if chars_are(&chars, "up") {
        Some(FILT_UP)
    } else if chars_are(&chars, "avg") {
        Some(FILT_AVG)
    } else if chars_are(&chars, "paeth") {
        Some(FILT_PAETH)
    } else {
        None
    }
}

/// The compressor that a user names, in upper or lower case.
pub fn choose_compressor(name: &str) -> (code: Option<u8>)
    ensures
        code == compressor_of(lowercase(name@)),
{
    compressor_named(to_lowercase(name).as_str())
}

/// The filter that a user names, in upper or lower case.
pub fn choose_filter(name: &str) -> (code: Option<u8>)
    ensures
        code == filter_of(lowercase(name@)),
{
    filter_named(to_lowercase(name).as_str())
}

/// How many tiles of a size cover a length.
pub open spec fn tiles_across(length: u32, tile: u32) -> int {
    (length + tile - 1) / tile as int
}

/// The size of the last of the tiles that cover a length.
pub open spec fn last_tile(length: u32, tile: u32) -> int {
    if length as int % tile as int == 0 {
        tile as int
    } else {
        length as int % tile as int
    }
}

/// Whether a length can be cut into tiles of a size, in 32-bit arithmetic.
pub open spec fn can_cut(length: u32, tile: u32) -> bool {
    tile > 0 && length + tile <= u32::MAX
}

/// The tile grid for an image.
pub open spec fn grid_for(
    info: TngImageInfo,
    tile_w: u32,
    tile_h: u32,
    threads: u32,
    compression_algo: u8,
    filter_algo: u8,
) -> TngTileConfig {
    TngTileConfig {
        tile_width: tile_w,
        tile_height: tile_h,
        num_tiles_x: tiles_across(info.width, tile_w) as u32,
        num_tiles_y: tiles_across(info.height, tile_h) as u32,
        edge_width: last_tile(info.width, tile_w) as u32,
        edge_height: last_tile(info.height, tile_h) as u32,
        threads,
        compression_algo,
        filter_algo,
    }
}

/// Cuts a length into tiles: their number, and the size of the last.
fn cut_length(length: u32, tile: u32) -> (cut: Option<(u32, u32)>)
    ensures
        match cut {
            Some((count, last)) => can_cut(length, tile) && count == tiles_across(length, tile)
                && last == last_tile(length, tile),
            None => !can_cut(length, tile),
        },
{
    if tile == 0 {
        return None;
    }
    let sum: u32 = match length.checked_add(tile) {
        Some(sum) => sum,
        None => {
            return None;
        },
    };
    let count: u32 = (sum - 1) / tile;
    let mut last: u32 = length % tile;
    if last == 0 {
        last = tile;
    }
    Some((count, last))
}

/// Plans the tile grid for an image. `None` if a tile has no size, or if counting the tiles
/// would overflow.
pub fn plan_grid(
    info: &TngImageInfo,
    tile_w: u32,
    tile_h: u32,
    threads: u32,
    compression_algo: u8,
    filter_algo: u8,
) -> (config: Option<TngTileConfig>)
    ensures
        match config {
            Some(config) => can_cut(info.width, tile_w) && can_cut(info.height, tile_h) && config
                == grid_for(*info, tile_w, tile_h, threads, compression_algo, filter_algo),
            None => !can_cut(info.width, tile_w) || !can_cut(info.height, tile_h),
        },
{
    let (num_tiles_x, edge_width) = match cut_length(info.width, tile_w) {
        Some(cut) => cut,
        None => {
            return None;
        },
    };
    let (num_tiles_y, edge_height) = match cut_length(info.height, tile_h) {
        Some(cut) => cut,
        None => {
            return None;
        },
    };
    Some(
        TngTileConfig {
            tile_width: tile_w,
            tile_height: tile_h,
            num_tiles_x,
            num_tiles_y,
            edge_width,
            edge_height,
            threads,
            compression_algo,
            filter_algo,
        },
    )
}

/// The tiles of a length cover it exactly, and only the last may be smaller than the rest.
pub proof fn tiles_cover_length(length: u32, tile: u32)
    requires
        can_cut(length, tile),
    ensures
        0 <= tiles_across(length, tile) <= length,
        1 <= last_tile(length, tile) <= tile,
        length == 0 ==> tiles_across(length, tile) == 0,
        length > 0 ==> {
            &&& tiles_across(length, tile) >= 1
            &&& (tiles_across(length, tile) - 1) * tile + last_tile(length, tile) == length
        },
{
    let n = length as int;
    let t = tile as int;
    let q = n / t;
    let r = n % t;
    vstd::arithmetic::div_mod::lemma_fundamental_div_mod(n, t);
    vstd::arithmetic::mul::lemma_mul_is_commutative(t, q);
    assert(0 <= q <= n && 0 <= r < t) by (nonlinear_arith)
        requires
            n == q * t + r,
            0 <= n,
            0 < t,
            q == n / t,
            r == n % t,
    ;
    if r == 0 {
        if n == 0 {
            vstd::arithmetic::div_mod::lemma_fundamental_div_mod_converse(t - 1, t, 0, t - 1);
        } else {
            assert(q * t + (t - 1) == n + t - 1);
            vstd::arithmetic::div_mod::lemma_fundamental_div_mod_converse(n + t - 1, t, q, t - 1);
            assert((q - 1) * t + t == q * t) by (nonlinear_arith);
            assert(q >= 1) by (nonlinear_arith)
                requires
                    q * t == n,
                    n > 0,
                    t > 0,
            ;
        }
    } else {
        assert((q + 1) * t == q * t + t) by (nonlinear_arith);
        vstd::arithmetic::div_mod::lemma_fundamental_div_mod_converse(n + t - 1, t, q + 1, r - 1);
        assert(q + 1 <= n) by (nonlinear_arith)
            requires
                n == q * t + r,
                q >= 0,
                t > r,
                r >= 1,
        ;
    }
}

/// A planned grid covers its image, so that what is encoded with it is decoded to the same
/// pixels.
pub proof fn planned_grid_covers(
    info: TngImageInfo,
    tile_w: u32,
    tile_h: u32,
    threads: u32,
    compression_algo: u8,
    filter_algo: u8,
)
    requires
        can_cut(info.width, tile_w),
        can_cut(info.height, tile_h),
    ensures
        ({
            let config = grid_for(info, tile_w, tile_h, threads, compression_algo, filter_algo);
            &&& covers(info, config)
            &&& config.num_tiles_y > 0 ==> (config.num_tiles_y - 1) * config.tile_height
                + config.edge_height == info.height
        }),
{
    tiles_cover_length(info.width, tile_w);
    tiles_cover_length(info.height, tile_h);
}

/// An image whose pixels fit in memory can be encoded with any planned grid.
pub proof fn planned_grid_encodes(
    encoder: TngEncoder,
    tile_w: u32,
    tile_h: u32,
    threads: u32,
    compression_algo: u8,
    filter_algo: u8,
)
    requires
        can_cut(encoder.info.width, tile_w),
        can_cut(encoder.info.height, tile_h),
        encoder.config == grid_for(
            encoder.info,
            tile_w,
            tile_h,
            threads,
            compression_algo,
            filter_algo,
        ),
        encoder.info.height * encoder.stride() <= isize::MAX,
        encoder.stride() <= usize::MAX,
    ensures
        encoder.encodable(),
{
    let width = encoder.info.width;
    let height = encoder.info.height;
    let config = encoder.config;
    let n = config.num_tiles_x as int;
    let b = encoder.bytes_per_pixel as int;
    let s = encoder.stride();
    tiles_cover_length(width, tile_w);
    tiles_cover_length(height, tile_h);
    assert(0 <= s) by (nonlinear_arith)
        requires
            s == width * b,
            0 <= b,
    ;
    if config.num_tiles_y >= 1 {
        assert(0 <= (config.num_tiles_y - 1) * tile_h) by (nonlinear_arith)
            requires
                config.num_tiles_y >= 1,
        ;
        assert(config.edge_height * s <= height * s) by (nonlinear_arith)
            requires
                config.edge_height <= height,
                0 <= s,
        ;
    }
    if config.num_tiles_y >= 2 {
        assert(tile_h <= (config.num_tiles_y - 1) * tile_h) by (nonlinear_arith)
            requires
                config.num_tiles_y >= 2,
        ;
        assert(tile_h * s <= height * s) by (nonlinear_arith)
            requires
                tile_h <= height,
                0 <= s,
        ;
    }
    if n >= 1 {
        assert((n - 1) * tile_w * b + config.edge_width * b == ((n - 1) * tile_w
            + config.edge_width) * b) by (nonlinear_arith);
    }
}

/// An image that was encoded with a planned grid is decoded to the same pixels: after a run
/// of the encoder that ended with code 0, any decoder that is given the bytes that were
/// written ends with code 0 and writes exactly the pixels that the encoder read, a band that
/// one call read by one call.
///
/// zstd may not have given up on a tile (no other compressor does), and the sizes must be
/// within reach: payloads and the tile index short enough for their 32-bit length fields,
/// and a row of tiles small enough for a buffer.
pub proof fn planned_image_survives(
    encoder: TngEncoder,
    tile_w: u32,
    tile_h: u32,
    h: History,
    tiles: Seq<Seq<u8>>,
    decoder: TngDecoder,
)
    requires
        encoder.wf(),
        can_cut(encoder.info.width, tile_w),
        can_cut(encoder.info.height, tile_h),
        encoder.config == grid_for(
            encoder.info,
            tile_w,
            tile_h,
            encoder.config.threads,
            encoder.config.compression_algo,
            encoder.config.filter_algo,
        ),
        encoder_run(encoder, h, Ok(0i32), tiles),
        forall|k: int|
            0 <= k < tiles.len() ==> #[trigger] tiles[k].len() <= u32::MAX && !tile_lost(
                tiles[k],
                encoder.config.compression_algo,
                encoder.config.filter_algo,
            ),
        4 * tiles.len() <= u32::MAX,
        layout_of(encoder.info, encoder.config, encoder.bytes_per_pixel) is Some,
    ensures
        decode(decoder, h.sent()).1 == (Decoded {
            rows: if encoder.config.num_tiles_x > 0 {
                h.reads()
            } else {
                Seq::empty()
            },
            rest: Seq::empty(),
            starved: None,
            end: Ok(0i32),
        }),
        decode(decoder, h.sent()).1.output() == h.got(),
{
    let config = encoder.config;
    planned_grid_covers(
        encoder.info,
        tile_w,
        tile_h,
        config.threads,
        config.compression_algo,
        config.filter_algo,
    );
    decode_undoes_encode(encoder, h, tiles, decoder);
}

/// What a decoded image is written as.
#[derive(Debug, Clone, Copy, PartialEq, Eq, Structural)]
pub enum OutputKind {
    /// Pixels alone.
    Raw,
    /// A PPM file.
    Ppm,
    /// A PAM file.
    Pam,
    /// A PAM file in place of the PPM file that was asked for.
    RenamedPam,
}

/// Whether the pixels of a colour type have an alpha sample.
pub open spec fn has_alpha(color_type: u8) -> bool {
    color_type == 4 || color_type == 6
}

/// What an image is written as, by its colour type and the extension of its file in lower
/// case. A PPM file cannot hold an alpha sample.
pub open spec fn output_of(color_type: u8, extension: Seq<char>) -> OutputKind {
    if extension == "ppm"@ {
        if has_alpha(color_type) {
            OutputKind::RenamedPam
        } else {
            OutputKind::Ppm
        }
    } else if extension == "pam"@ {
        OutputKind::Pam
    } else {
        OutputKind::Raw
    }
}

/// What an image is written as, by the extension of its file in lower case.
pub fn output_named(color_type: u8, extension: &str) -> (kind: OutputKind)
    ensures
        kind == output_of(color_type, extension@),
{
    let chars: Vec<char> = chars_of(extension);
    if chars_are(&chars, "ppm") {
        if color_type == 4 || color_type == 6 {
            OutputKind::RenamedPam
        } else {
            OutputKind::Ppm
        }
    } else if chars_are(&chars, "pam") {
        OutputKind::Pam
    } else {
        OutputKind::Raw
    }
}

/// What an image is written as, by the extension of its file.
pub fn choose_output(color_type: u8, extension: &str) -> (kind: OutputKind)
    ensures
        kind == output_of(color_type, lowercase(extension@)),
{
    output_named(color_type, to_lowercase(extension).as_str())
}

/// The largest sample of an image.
pub open spec fn largest_sample(bit_depth: u8) -> u32 {
    if bit_depth == 16 {
        65535
    } else {
        255
    }
}

/// The samples of a pixel in a PAM file.
pub open spec fn pam_depth(color_type: u8) -> u32 {
    if color_type == 0 {
        1
    } else if color_type == 4 {
        2
    } else if color_type == 6 {
        4
    } else {
        3
    }
}

/// The tuple type of a PAM file.
pub open spec fn pam_tuple_type(color_type: u8) -> Seq<char> {
    if color_type == 0 {
        "GRAYSCALE"@
    } else if color_type == 4 {
        "GRAYSCALE_ALPHA"@
    } else if color_type == 6 {
        "RGB_ALPHA"@
    } else {
        "RGB"@
    }
}

/// The header of a PPM file.
pub open spec fn ppm_header_text(info: TngImageInfo) -> Seq<char> {
    "P6\n"@ + decimal(info.width as nat) + " "@ + decimal(info.height as nat) + "\n"@ + decimal(
        largest_sample(info.bit_depth) as nat,
    ) + "\n"@
}

/// The header of a PAM file.
pub open spec fn pam_header_text(info: TngImageInfo) -> Seq<char> {
    "P7\nWIDTH "@ + decimal(info.width as nat) + "\nHEIGHT "@ + decimal(info.height as nat)
        + "\nDEPTH "@ + decimal(pam_depth(info.color_type) as nat) + "\nMAXVAL "@ + decimal(
        largest_sample(info.bit_depth) as nat,
    ) + "\nTUPLTYPE "@ + pam_tuple_type(info.color_type) + "\nENDHDR\n"@
}

/// The header of a PPM file.
pub fn ppm_header(info: &TngImageInfo) -> (header: String)
    ensures
        header@ == ppm_header_text(*info),
{
    let maxval: u32 = if info.bit_depth == 16 {
        65535
    } else {
        255
    };
    let mut header: String = String::new();
    header.append("P6\n");
    append_decimal(&mut header, info.width);
    header.append(" ");
    append_decimal(&mut header, info.height);
    header.append("\n");
    append_decimal(&mut header, maxval);
    header.append("\n");
    assert(header@ =~= ppm_header_text(*info));
    header
}

/// The header of a PAM file.
pub fn pam_header(info: &TngImageInfo) -> (header: String)
    ensures
        header@ == pam_header_text(*info),
{
    let maxval: u32 = if info.bit_depth == 16 {
        65535
    } else {
        255
    };
    let depth: u32 = match info.color_type {
        0 => 1,
        2 => 3,
        4 => 2,
        6 => 4,
        _ => 3,
    };
    let tupltype: &'static str = match info.color_type {
        0 => "GRAYSCALE",
        2 => "RGB",
        4 => "GRAYSCALE_ALPHA",
        6 => "RGB_ALPHA",
        _ => "RGB",
    };
    let mut header: String = String::new();
    header.append("P7\nWIDTH ");
    append_decimal(&mut header, info.width);
    header.append("\nHEIGHT ");
    append_decimal(&mut header, info.height);
    header.append("\nDEPTH ");
    append_decimal(&mut header, depth);
    header.append("\nMAXVAL ");
    append_decimal(&mut header, maxval);
    header.append("\nTUPLTYPE ");
    header.append(tupltype);
    header.append("\nENDHDR\n");
    assert(header@ =~= pam_header_text(*info));
    header
}

/// The header that goes before the pixels of an image, if one does.
pub open spec fn header_text(kind: OutputKind, info: TngImageInfo) -> Option<Seq<char>> {
    match kind {
        OutputKind::Raw => None,
        OutputKind::Ppm => Some(ppm_header_text(info)),
        OutputKind::Pam | OutputKind::RenamedPam => Some(pam_header_text(info)),
    }
}

/// The header that goes before the pixels of an image, if one does.
pub fn file_header(kind: OutputKind, info: &TngImageInfo) -> (header: Option<String>)
    ensures
        match (header, header_text(kind, *info)) {
            (Some(header), Some(wanted)) => header@ == wanted,
            (None, None) => true,
            _ => false,
        },
{
    match kind {
        OutputKind::Raw => None,
        OutputKind::Ppm => Some(ppm_header(info)),
        OutputKind::Pam | OutputKind::RenamedPam => Some(pam_header(info)),
    }
}

/// The colour type for a number of samples in a pixel.
pub open spec fn color_type_for(depth: u32) -> Option<u8> {
    if depth == 1 {
        Some(0u8)
    } else if depth == 2 {
        Some(4u8)
    } else if depth == 3 {
        Some(2u8)
    } else if depth == 4 {
        Some(6u8)
    } else {
        None
    }
}

/// The image information for an image file: samples take 16 bits where one byte does not
/// hold them.
pub open spec fn info_for(header: Header) -> Option<TngImageInfo> {
    match color_type_for(header.depth) {
        Some(color_type) => Some(
            TngImageInfo {
                width: header.width,
                height: header.height,
                bit_depth: if header.maxval > 255 {
                    16
                } else {
                    8
                },
                color_type,
            },
        ),
        None => None,
    }
}

/// The image information for an image file. `None` if its pixels have no colour type.
pub fn image_info(metadata: &PpmPamMetadata) -> (info: Option<TngImageInfo>)
    ensures
        info == info_for(metadata@),
{
    let color_type: u8 = match metadata.depth {
        1 => 0,
        2 => 4,
        3 => 2,
        4 => 6,
        _ => {
            return None;
        },
    };
    let bit_depth: u8 = if metadata.maxval > 255 {
        16
    } else {
        8
    };
    Some(TngImageInfo { width: metadata.width, height: metadata.height, bit_depth, color_type })
}

/// A planned grid has the tile size, the threads and the codes that were asked for, and counts
/// the tiles and their last sizes along both sides of the image: all tiles but the last along
/// a side have the tile size, the last is neither empty nor larger, and together they are as
/// long as the side. A side without length has no tiles, and its last size is the tile size.
pub proof fn planned_grid_is_the_one_asked_for(
    info: TngImageInfo,
    tile_w: u32,
    tile_h: u32,
    threads: u32,
    compression_algo: u8,
    filter_algo: u8,
)
    requires
        can_cut(info.width, tile_w),
        can_cut(info.height, tile_h),
    ensures
        ({
            let grid = grid_for(info, tile_w, tile_h, threads, compression_algo, filter_algo);
            &&& grid.tile_width == tile_w && grid.tile_height == tile_h
            &&& grid.threads == threads
            &&& grid.compression_algo == compression_algo
            &&& grid.filter_algo == filter_algo
            &&& 1 <= grid.edge_width <= tile_w
            &&& 1 <= grid.edge_height <= tile_h
            &&& info.width > 0 ==> grid.num_tiles_x >= 1 && (grid.num_tiles_x - 1) * tile_w
                + grid.edge_width == info.width
            &&& info.height > 0 ==> grid.num_tiles_y >= 1 && (grid.num_tiles_y - 1) * tile_h
                + grid.edge_height == info.height
            &&& info.width == 0 ==> grid.num_tiles_x == 0 && grid.edge_width == tile_w
            &&& info.height == 0 ==> grid.num_tiles_y == 0 && grid.edge_height == tile_h
        }),
{
    tiles_cover_length(info.width, tile_w);
    tiles_cover_length(info.height, tile_h);
    assert(0int % tile_w as int == 0 && 0int % tile_h as int == 0) by (nonlinear_arith)
        requires
            tile_w > 0,
            tile_h > 0,
    ;
}

/// A length can be cut into tiles unless they have no size, or the sum of both does not fit in
/// 32 bits.
pub proof fn cuts_fail_without_size_or_room(length: u32, tile: u32)
    ensures
        can_cut(length, tile) <==> tile != 0 && length + tile < 4294967296,
{
}

/// The compressors and filters that have names, and their codes. No other name has one.
pub proof fn names_have_their_codes(name: Seq<char>, code: u8)
    ensures
        compressor_of(name) == Some(code) <==> {
            ||| name == "deflate"@ && code == 0
            ||| name == "zstd"@ && code == 16
            ||| name == "brotli"@ && code == 17
            ||| name == "lzma"@ && code == 18
        },
        filter_of(name) == Some(code) <==> {
            ||| name == "none"@ && code == 0
            ||| name == "sub"@ && code == 1
            ||| name == "up"@ && code == 2
            ||| name == "avg"@ && code == 3
            ||| name == "paeth"@ && code == 4
        },
{
    reveal_strlit("deflate");
    reveal_strlit("zstd");
    reveal_strlit("brotli");
    reveal_strlit("lzma");
    reveal_strlit("none");
    reveal_strlit("sub");
    reveal_strlit("up");
    reveal_strlit("avg");
    reveal_strlit("paeth");
    assert("zstd"@[0] != "lzma"@[0]);
    assert("sub"@[0] != "avg"@[0]);
    assert("deflate"@.len() == 7 && "zstd"@.len() == 4 && "brotli"@.len() == 6);
    assert("lzma"@.len() == 4);
    assert("none"@.len() == 4 && "sub"@.len() == 3 && "up"@.len() == 2 && "avg"@.len() == 3
        && "paeth"@.len() == 5);
}

/// Upper and lower case make no difference to the letters from A to Z, and no other ASCII
/// character changes.
pub proof fn case_of_letters(c: char)
    requires
        (c as int) < 128,
    ensures
        65 <= c as int <= 90 ==> ascii_lowercase(c) as int == c as int + 32,
        !(65 <= c as int <= 90) ==> ascii_lowercase(c) == c,
{
}

/// Names that differ in the case of ASCII letters alone choose the same, as compressors, as
/// filters and as file extensions.
pub proof fn case_does_not_matter(a: Seq<char>, b: Seq<char>, color_type: u8)
    requires
        vstd::utf8::is_ascii_chars(a),
        vstd::utf8::is_ascii_chars(b),
        a.len() == b.len(),
        forall|i: int|
            0 <= i < a.len() ==> #[trigger] a[i] == b[i] || (65 <= a[i] as int <= 90 && b[i] as int
                == a[i] as int + 32) || (65 <= b[i] as int <= 90 && a[i] as int == b[i] as int
                + 32),
    ensures
        lowercase(a) == lowercase(b),
        compressor_of(lowercase(a)) == compressor_of(lowercase(b)),
        filter_of(lowercase(a)) == filter_of(lowercase(b)),
        output_of(color_type, lowercase(a)) == output_of(color_type, lowercase(b)),
{
    assert forall|i: int| 0 <= i < a.len() implies lowercase(a)[i] == lowercase(b)[i] by {
        assert(a[i] == b[i] || (65 <= a[i] as int <= 90 && b[i] as int == a[i] as int + 32) || (65
            <= b[i] as int <= 90 && a[i] as int == b[i] as int + 32));
    }
    assert(lowercase(a) =~= lowercase(b));
}

/// What stands before the pixels of a file: in a file with the extension `pam` the header of a
/// PAM file, whatever the colour type; in one with the extension `ppm` the header of a PPM file
/// where the pixels have no alpha sample (colour types 4 and 6 have one), and else that of a
/// PAM file; and nothing in a file with any other extension.
pub proof fn files_have_the_header_of_their_extension(
    color_type: u8,
    extension: Seq<char>,
    info: TngImageInfo,
)
    ensures
        extension == "pam"@ ==> header_text(output_of(color_type, extension), info) == Some(
            pam_header_text(info),
        ),
        extension == "ppm"@ ==> header_text(output_of(color_type, extension), info) == Some(
            if color_type == 4 || color_type == 6 {
                pam_header_text(info)
            } else {
                ppm_header_text(info)
            },
        ),
        extension != "pam"@ && extension != "ppm"@ ==> header_text(
            output_of(color_type, extension),
            info,
        ) is None,
{
    reveal_strlit("pam");
    reveal_strlit("ppm");
    assert("pam"@[1] != "ppm"@[1]);
}

/// A file is renamed exactly where its extension is `ppm` and its pixels have an alpha sample:
/// no PPM file holds alpha, and no other file changes its name.
pub proof fn only_ppm_files_with_alpha_are_renamed(color_type: u8, extension: Seq<char>)
    ensures
        output_of(color_type, extension) == OutputKind::RenamedPam <==> extension == "ppm"@ && (
        color_type == 4 || color_type == 6),
        output_of(color_type, extension) == OutputKind::Pam <==> extension == "pam"@,
        output_of(color_type, extension) == OutputKind::Ppm <==> extension == "ppm"@ && color_type
            != 4 && color_type != 6,
        output_of(color_type, extension) == OutputKind::Raw <==> extension != "ppm"@ && extension
            != "pam"@,
{
    reveal_strlit("pam");
    reveal_strlit("ppm");
    assert("pam"@[1] != "ppm"@[1]);
}

/// The header of a PPM file, word by word: the signature, the width, the height, and the
/// largest sample, which is 65535 for 16 bits and 255 otherwise.
pub proof fn ppm_header_says_the_size(info: TngImageInfo)
    ensures
        ppm_header_text(info) == "P6\n"@ + decimal(info.width as nat) + " "@ + decimal(
            info.height as nat,
        ) + "\n"@ + decimal(
            if info.bit_depth == 16 {
                65535
            } else {
                255
            },
        ) + "\n"@,
{
}

/// The header of a PAM file, line by line: the width, the height, the samples of a pixel, the
/// largest sample, which is 65535 for 16 bits and 255 otherwise, and the tuple type. Gray has
/// one sample, gray with alpha two, RGBA four, and every other colour type three.
pub proof fn pam_header_says_the_size(info: TngImageInfo)
    ensures
        ({
            let largest: nat = if info.bit_depth == 16 {
                65535
            } else {
                255
            };
            let (samples, kind): (nat, Seq<char>) = if info.color_type == 0 {
                (1, "GRAYSCALE"@)
            } else if info.color_type == 4 {
                (2, "GRAYSCALE_ALPHA"@)
            } else if info.color_type == 6 {
                (4, "RGB_ALPHA"@)
            } else {
                (3, "RGB"@)
            };
            pam_header_text(info) == "P7\nWIDTH "@ + decimal(info.width as nat) + "\nHEIGHT "@
                + decimal(info.height as nat) + "\nDEPTH "@ + decimal(samples) + "\nMAXVAL "@
                + decimal(largest) + "\nTUPLTYPE "@ + kind + "\nENDHDR\n"@
        }),
{
}

/// An image file is read as an image of its size, with the colour type that has as many samples
/// as its pixels and an alpha sample where their number is even, and with 16 bits exactly where
/// a sample does not fit in a byte. Pixels of none or more than four samples have no colour
/// type.
pub proof fn image_files_keep_their_size_and_samples(header: Header)
    ensures
        info_for(header) is Some <==> 1 <= header.depth <= 4,
        info_for(header) matches Some(info) ==> {
            &&& info.width == header.width
            &&& info.height == header.height
            &&& crate::format::channels(info.color_type) == header.depth
            &&& has_alpha(info.color_type) <==> header.depth == 2 || header.depth == 4
            &&& info.color_type == 0 || info.color_type == 2 || info.color_type == 4
                || info.color_type == 6
            &&& info.bit_depth == 16 <==> header.maxval >= 256
            &&& info.bit_depth == 8 <==> header.maxval < 256
        },
{
}

/// Colour types 4 and 6 have an alpha sample.
pub proof fn alpha_by_color_type(color_type: u8)
    ensures
        has_alpha(color_type) <==> color_type == 4 || color_type == 6,
{
}

} // verus!
