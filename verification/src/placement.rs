//! Where everything goes: the fields of the headers, the sizes in the tile index, and the pixels
//! of an image in its tiles.

use crate::bytes::{be32_has_the_digits, from_be32_counts_the_digits, number_at};
use crate::channel::History;
use crate::chunk::chunk_bytes;
use crate::decoder::{config_in, info_in};
use crate::encoder::{
    encoder_run, ihdr_data, index_data, sizes_bytes, stream_bytes, stream_head, thdr_data,
    tile_sizes, tiles_bytes,
};
use crate::filter::lemma_position;
use crate::format::{TngEncoder, TngImageInfo, TngTileConfig};
use crate::region::cut_takes_the_rectangle;
use crate::tile::tile_written;
use vstd::prelude::*;

verus! {

/// The data of an image header: the width, the height, the bits of a sample, the colour type,
/// and three zeros.
pub proof fn image_header_has_its_fields(info: TngImageInfo)
    ensures
        ihdr_data(info).len() == 13,
        number_at(ihdr_data(info), 0) == info.width,
        number_at(ihdr_data(info), 4) == info.height,
        ihdr_data(info)[8] == info.bit_depth,
        ihdr_data(info)[9] == info.color_type,
        ihdr_data(info)[10] == 0 && ihdr_data(info)[11] == 0 && ihdr_data(info)[12] == 0,
{
    be32_has_the_digits(info.width);
    be32_has_the_digits(info.height);
}

/// The data of a tile grid header: the tiles of a row and of a column, the width and the height
/// of a tile, and those of the last tiles.
pub proof fn grid_header_has_its_fields(config: TngTileConfig)
    ensures
        thdr_data(config).len() == 24,
        number_at(thdr_data(config), 0) == config.num_tiles_x,
        number_at(thdr_data(config), 4) == config.num_tiles_y,
        number_at(thdr_data(config), 8) == config.tile_width,
        number_at(thdr_data(config), 12) == config.tile_height,
        number_at(thdr_data(config), 16) == config.edge_width,
        number_at(thdr_data(config), 20) == config.edge_height,
{
    be32_has_the_digits(config.num_tiles_x);
    be32_has_the_digits(config.num_tiles_y);
    be32_has_the_digits(config.tile_width);
    be32_has_the_digits(config.tile_height);
    be32_has_the_digits(config.edge_width);
    be32_has_the_digits(config.edge_height);
}

/// An image header is read field by field; what follows the fields is not looked at.
pub proof fn image_header_is_read_by_fields(data: Seq<u8>)
    requires
        data.len() >= 10,
    ensures
        info_in(data).width == number_at(data, 0),
        info_in(data).height == number_at(data, 4),
        info_in(data).bit_depth == data[8],
        info_in(data).color_type == data[9],
{
    from_be32_counts_the_digits(data.subrange(0, 4));
    from_be32_counts_the_digits(data.subrange(4, 8));
}

/// A tile grid header is read field by field; what follows the fields is not looked at.
pub proof fn grid_header_is_read_by_fields(data: Seq<u8>)
    requires
        data.len() >= 24,
    ensures
        config_in(data).num_tiles_x == number_at(data, 0),
        config_in(data).num_tiles_y == number_at(data, 4),
        config_in(data).tile_width == number_at(data, 8),
        config_in(data).tile_height == number_at(data, 12),
        config_in(data).edge_width == number_at(data, 16),
        config_in(data).edge_height == number_at(data, 20),
        config_in(data).threads == 1,
        config_in(data).compression_algo == 0,
        config_in(data).filter_algo == 0,
{
    from_be32_counts_the_digits(data.subrange(0, 4));
    from_be32_counts_the_digits(data.subrange(4, 8));
    from_be32_counts_the_digits(data.subrange(8, 12));
    from_be32_counts_the_digits(data.subrange(12, 16));
    from_be32_counts_the_digits(data.subrange(16, 20));
    from_be32_counts_the_digits(data.subrange(20, 24));
}

proof fn lemma_sizes(sizes: Seq<u32>, k: int)
    requires
        0 <= k < sizes.len(),
    ensures
        sizes_bytes(sizes).len() == 4 * sizes.len(),
        number_at(sizes_bytes(sizes), 4 * k) == sizes[k],
    decreases sizes.len(),
{
    let fewer = sizes.drop_last();
    be32_has_the_digits(sizes.last());
    if fewer.len() > 0 {
        lemma_sizes(fewer, if k < fewer.len() {
            k
        } else {
            0
        });
    } else {
        assert(sizes_bytes(fewer).len() == 0);
    }
}

/// The tile index tells the size of every tile: four bytes for each, in the order of the tiles,
/// that hold the length of its payload.
pub proof fn index_tells_the_sizes(tiles: Seq<Seq<u8>>)
    ensures
        index_data(tiles).len() == 4 * tiles.len(),
        forall|k: int|
            0 <= k < tiles.len() && (#[trigger] tiles[k]).len() <= u32::MAX ==> number_at(
                index_data(tiles),
                4 * k,
            ) == tiles[k].len(),
        forall|k: int|
            0 <= k < tiles.len() ==> number_at(index_data(tiles), 4 * k) == (
            #[trigger] tiles[k]).len() % 4294967296,
{
    let sizes = tile_sizes(tiles);
    if tiles.len() > 0 {
        lemma_sizes(sizes, 0);
    }
    assert forall|k: int| 0 <= k < tiles.len() implies number_at(index_data(tiles), 4 * k) == (
    #[trigger] tiles[k]).len() % 4294967296 by {
        lemma_sizes(sizes, k);
    }
}

/// A stream is a signature and chunks: the image header, the tile grid header, one chunk for
/// each tile, the tile index and the end chunk. The types are spelled "IHDR", "THDR", "TDAT",
/// "tIDX" and "IEND".
pub proof fn stream_is_made_of_chunks(
    info: TngImageInfo,
    config: TngTileConfig,
    tiles: Seq<Seq<u8>>,
)
    ensures
        ({
            let head = seq![0x89u8, 0x54, 0x4e, 0x47, 0x0d, 0x0a, 0x1a, 0x0a] + chunk_bytes(
                seq![0x49u8, 0x48, 0x44, 0x52],
                ihdr_data(info),
            ) + chunk_bytes(seq![0x54u8, 0x48, 0x44, 0x52], thdr_data(config));
            &&& stream_head(info, config) == head
            &&& stream_bytes(info, config, tiles) == head + tiles_bytes(tiles) + chunk_bytes(
                seq![0x74u8, 0x49, 0x44, 0x58],
                index_data(tiles),
            ) + chunk_bytes(seq![0x49u8, 0x45, 0x4e, 0x44], Seq::empty())
        }),
        tiles_bytes(Seq::empty()) == Seq::<u8>::empty(),
        forall|tile: Seq<u8>| #[trigger]
            tiles_bytes(tiles.push(tile)) == tiles_bytes(tiles) + chunk_bytes(
                seq![0x54u8, 0x44, 0x41, 0x54],
                tile,
            ),
{
    crate::format::names_and_codes();
    assert forall|tile: Seq<u8>| #[trigger]
        tiles_bytes(tiles.push(tile)) == tiles_bytes(tiles) + chunk_bytes(
            seq![0x54u8, 0x44, 0x41, 0x54],
            tile,
        ) by {
        assert(tiles.push(tile).drop_last() =~= tiles);
    }
}

/// The pixels of a tile are those of its place in the image: byte `x` of row `y` of the tile in
/// column `tx` and row `ty` of tiles is byte `x` after the start of pixel column
/// `tx * tile_width` in pixel row `ty * tile_height + y`.
pub proof fn tile_has_the_pixels_of_its_place(
    enc: TngEncoder,
    pixels: Seq<u8>,
    ty: int,
    tx: int,
    y: int,
    x: int,
)
    requires
        0 <= ty < enc.config.num_tiles_y,
        0 <= tx < enc.config.num_tiles_x,
        0 <= y < enc.config.height_of(ty),
        0 <= x < enc.config.width_of(tx) * enc.bytes_per_pixel,
        tx * enc.config.tile_width * enc.bytes_per_pixel + enc.config.width_of(tx)
            * enc.bytes_per_pixel <= enc.info.width * enc.bytes_per_pixel,
        pixels.len() >= enc.read_len(enc.config.num_tiles_y as int),
    ensures
        ({
            let run = enc.config.width_of(tx) * enc.bytes_per_pixel;
            let tile = enc.tile_of(enc.band(pixels, ty), ty, tx);
            let line = ty * enc.config.tile_height + y;
            &&& tile.len() == enc.config.height_of(ty) * run
            &&& 0 <= y * run + x < tile.len()
            &&& tile[y * run + x] == pixels[line * (enc.info.width * enc.bytes_per_pixel) + tx
                * enc.config.tile_width * enc.bytes_per_pixel + x]
        }),
{
    let bpp = enc.bytes_per_pixel as int;
    let run = enc.config.width_of(tx) * bpp;
    let s = enc.stride();
    let h = enc.config.height_of(ty);
    let offset = tx * enc.config.tile_width * bpp;
    let band = enc.band(pixels, ty);
    enc.lemma_band_end(ty, enc.config.num_tiles_y as int);
    cut_takes_the_rectangle(band, s, offset, run, h, y, x);
    assert(0 <= offset) by (nonlinear_arith)
        requires
            offset == tx * enc.config.tile_width * bpp,
            tx >= 0,
            bpp >= 0,
    ;
    let p = y * s + offset + x;
    assert(0 <= y * s && p < h * s) by (nonlinear_arith)
        requires
            p == y * s + offset + x,
            0 <= y < h,
            0 <= x < run,
            0 <= offset,
            offset + run <= s,
    ;
    assert(enc.band_len(ty) == h * s);
    assert(band[p] == pixels[enc.band_start(ty) + p]);
    let th = enc.config.tile_height as int;
    assert(ty * (th * s) + y * s == (ty * th + y) * s) by (nonlinear_arith);
}

/// Without a compressor and a filter a stream holds the image itself: where an encoder whose
/// compressor code stores bodies as they are and whose filter code leaves bytes as they are has
/// ended with code 0, the payload of the tile in column `tx` and row `ty` of tiles, which is
/// number `ty * num_tiles_x + tx`, is its two codes and the pixels of its place, row by row.
pub proof fn stored_stream_holds_the_image(
    enc: TngEncoder,
    h: History,
    tiles: Seq<Seq<u8>>,
    ty: int,
    tx: int,
    y: int,
    x: int,
)
    requires
        encoder_run(enc, h, Ok(0i32), tiles),
        enc.config.compression_algo != 0,
        enc.config.compression_algo < 16 || enc.config.compression_algo > 18,
        enc.config.filter_algo >= 16,
        0 <= ty < enc.config.num_tiles_y,
        0 <= tx < enc.config.num_tiles_x,
        0 <= y < enc.config.height_of(ty),
        0 <= x < enc.config.width_of(tx) * enc.bytes_per_pixel,
    ensures
        tiles.len() == enc.config.num_tiles_y * enc.config.num_tiles_x,
        ({
            let run = enc.config.width_of(tx) * enc.bytes_per_pixel;
            let payload = tiles[ty * enc.config.num_tiles_x + tx];
            let line = ty * enc.config.tile_height + y;
            &&& payload.len() == 2 + enc.config.height_of(ty) * run
            &&& payload[0] == enc.config.compression_algo
            &&& payload[1] == enc.config.filter_algo
            &&& payload[2 + y * run + x] == h.got()[line * (enc.info.width * enc.bytes_per_pixel)
                + tx * enc.config.tile_width * enc.bytes_per_pixel + x]
        }),
{
    let n = enc.config.num_tiles_x as int;
    let k = ty * n + tx;
    lemma_position(ty, tx, n, enc.config.num_tiles_y as int);
    assert(enc.band_fits(ty));
    enc.lemma_tile_fits(ty, tx);
    tile_has_the_pixels_of_its_place(enc, h.got(), ty, tx, y, x);
    let payload = tiles[k];
    let tile = enc.tile_of(enc.band(h.got(), ty), ty, tx);
    assert(enc.tile_made(enc.band(h.got(), k / n), k / n, k % n, tiles[k]));
    assert(payload.skip(2) == tile);
    let run = enc.config.width_of(tx) * enc.bytes_per_pixel;
    assert(payload.skip(2)[y * run + x] == payload[2 + y * run + x]);
}

/// The tiles of a row of tiles that has a height can be handled exactly where each of them lies
/// within the width of the image.
pub proof fn tiles_fit_where_each_lies_within(enc: TngEncoder, ty: int)
    requires
        enc.stride() <= usize::MAX,
        0 <= ty < enc.config.num_tiles_y,
        enc.config.height_of(ty) > 0,
    ensures
        enc.tiles_fit(ty) <==> forall|tx: int|
            0 <= tx < enc.config.num_tiles_x ==> #[trigger] (tx * enc.config.tile_width)
                * enc.bytes_per_pixel + enc.config.width_of(tx) * enc.bytes_per_pixel
                <= enc.info.width * enc.bytes_per_pixel,
{
    if enc.tiles_fit(ty) {
        assert forall|tx: int| 0 <= tx < enc.config.num_tiles_x implies #[trigger] (tx
            * enc.config.tile_width) * enc.bytes_per_pixel + enc.config.width_of(tx)
            * enc.bytes_per_pixel <= enc.info.width * enc.bytes_per_pixel by {
            enc.lemma_tile_fits(ty, tx);
        }
    } else {
        let last = enc.config.num_tiles_x - 1;
        assert(last * enc.config.tile_width * enc.bytes_per_pixel + enc.config.width_of(last)
            * enc.bytes_per_pixel > enc.info.width * enc.bytes_per_pixel);
        assert(0 <= last < enc.config.num_tiles_x);
        let at = last * enc.config.tile_width;
    }
}

/// A band holds the rows of pixels of its row of tiles: band `ty` starts after all rows of
/// pixels of the bands before it, and is as long as its rows.
pub proof fn band_has_the_rows_of_its_tiles(enc: TngEncoder, ty: int)
    requires
        0 <= ty < enc.config.num_tiles_y,
    ensures
        enc.band_start(ty) == (ty * enc.config.tile_height) * (enc.info.width
            * enc.bytes_per_pixel),
        enc.band_len(ty) == enc.config.height_of(ty) * (enc.info.width * enc.bytes_per_pixel),
        enc.band_fits(ty) <==> enc.config.height_of(ty) * (enc.info.width * enc.bytes_per_pixel)
            <= isize::MAX,
{
    let s = enc.stride();
    let th = enc.config.tile_height as int;
    assert(ty * (th * s) == (ty * th) * s) by (nonlinear_arith);
}

/// Whatever the compressor and the filter, a tile of a stream is made of the pixels of its place:
/// where an encoder has ended with code 0, the payload of the tile in column `tx` and row `ty`
/// of tiles, which is number `ty * num_tiles_x + tx`, was written for the bytes of its place in
/// the image, row by row, or zstd gave up on it.
pub proof fn tiles_are_made_of_their_pixels(
    enc: TngEncoder,
    h: History,
    tiles: Seq<Seq<u8>>,
    ty: int,
    tx: int,
)
    requires
        encoder_run(enc, h, Ok(0i32), tiles),
        0 <= ty < enc.config.num_tiles_y,
        0 <= tx < enc.config.num_tiles_x,
    ensures
        ({
            let width = enc.config.width_of(tx);
            let height = enc.config.height_of(ty);
            let bpp = enc.bytes_per_pixel as int;
            let payload = tiles[ty * enc.config.num_tiles_x + tx];
            ||| enc.config.compression_algo == 16 && payload == seq![16u8, enc.config.filter_algo]
            ||| exists|data: Seq<u8>| #[trigger]
                tile_written(
                    payload,
                    data,
                    width,
                    height,
                    bpp,
                    enc.config.compression_algo,
                    enc.config.filter_algo,
                ) && is_part_of(enc, h.got(), ty, tx, data)
        }),
{
    let n = enc.config.num_tiles_x as int;
    let k = ty * n + tx;
    lemma_position(ty, tx, n, enc.config.num_tiles_y as int);
    assert(enc.band_fits(ty));
    enc.lemma_tile_fits(ty, tx);
    let width = enc.config.width_of(tx);
    let height = enc.config.height_of(ty);
    let bpp = enc.bytes_per_pixel as int;
    let data = enc.tile_of(enc.band(h.got(), ty), ty, tx);
    assert(enc.tile_made(enc.band(h.got(), k / n), k / n, k % n, tiles[k]));
    assert(0 <= height * (width * bpp)) by (nonlinear_arith)
        requires
            0 <= height,
            0 <= width * bpp,
    ;
    assert forall|y: int, x: int|
        #![trigger data[y * (width * bpp) + x]]
        0 <= y < height && 0 <= x < width * bpp implies data[y * (width * bpp) + x] == h.got()[(ty
        * enc.config.tile_height + y) * (enc.info.width * enc.bytes_per_pixel) + tx
        * enc.config.tile_width * enc.bytes_per_pixel + x] by {
        tile_has_the_pixels_of_its_place(enc, h.got(), ty, tx, y, x);
    }
    assert(is_part_of(enc, h.got(), ty, tx, data));
}

/// Whether `data` are the bytes of the image that the tile in column `tx` and row `ty` of tiles
/// covers, row by row.
pub open spec fn is_part_of(
    enc: TngEncoder,
    pixels: Seq<u8>,
    ty: int,
    tx: int,
    data: Seq<u8>,
) -> bool {
    let run = enc.config.width_of(tx) * enc.bytes_per_pixel;
    &&& data.len() == enc.config.height_of(ty) * run
    &&& forall|y: int, x: int|
        #![trigger data[y * run + x]]
        0 <= y < enc.config.height_of(ty) && 0 <= x < run ==> data[y * run + x] == pixels[(ty
            * enc.config.tile_height + y) * (enc.info.width * enc.bytes_per_pixel) + tx
            * enc.config.tile_width * enc.bytes_per_pixel + x]
}

} // verus!
