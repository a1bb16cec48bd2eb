//! What was encoded is decoded to the same pixels.

use crate::bytes::{be32, be32_round_trip};
use crate::channel::{joined, lemma_joined_adds, History};
use crate::chunk::{chunk_bytes, split_chunk, split_undoes_chunk, ChunkRead};
use crate::decoder::{
    batch_due, batch_fits, config_in, decode, info_in, lay_batch, lay_tile, lay_tiles, layout_of,
    no_tiles_yet, oversized, read_headers, read_tiles, take_tile, Decoded, Headers, Laid, Layout,
    Progress, Step, BATCH_TILES,
};
use crate::encoder::{
    encoder_run, ihdr_data, index_data, parts_make_the_stream, sizes_bytes, stream_bytes,
    stream_head, thdr_data, tile_sizes, tiles_bytes,
};
use crate::format::{
    TngDecoder, TngEncoder, TngFault, TngImageInfo, TngTileConfig, CHUNK_IEND, CHUNK_IHDR,
    CHUNK_TDAT, CHUNK_THDR, CHUNK_TIDX, TNG_MAGIC,
};
use crate::filter::lemma_position;
use crate::region::{cut, lemma_paste_cut_index, lemma_paste_len, paste};
use crate::tile::{lemma_tile_len, tile_len, tile_lost, tile_pixels, tile_written};
use vstd::prelude::*;

verus! {

/// The tile grid as a stream carries it.
pub open spec fn carried(config: TngTileConfig) -> TngTileConfig {
    TngTileConfig { threads: 1, compression_algo: 0, filter_algo: 0, ..config }
}

/// Whether the tiles of each row cover the width of the image, with no tile larger than
/// the tile size. An image without rows of tiles or without width needs no tiles.
pub open spec fn covers(info: TngImageInfo, config: TngTileConfig) -> bool {
    ||| config.num_tiles_y == 0
    ||| config.num_tiles_x == 0 && info.width == 0
    ||| {
        &&& config.num_tiles_x > 0
        &&& (config.num_tiles_x - 1) * config.tile_width + config.edge_width == info.width
        &&& config.edge_width <= config.tile_width
        &&& config.edge_height <= config.tile_height
    }
}

/// The chunks of the tiles from number `k` on.
spec fn tiles_from(tiles: Seq<Seq<u8>>, k: int) -> Seq<u8>
    decreases tiles.len() - k,
{
    if k >= tiles.len() {
        Seq::empty()
    } else {
        chunk_bytes(CHUNK_TDAT@, tiles[k]) + tiles_from(tiles, k + 1)
    }
}

proof fn lemma_tiles_from(tiles: Seq<Seq<u8>>, k: int)
    requires
        0 <= k <= tiles.len(),
    ensures
        tiles_bytes(tiles.take(k)) + tiles_from(tiles, k) == tiles_bytes(tiles),
    decreases tiles.len() - k,
{
    if k == tiles.len() {
        assert(tiles.take(k) =~= tiles);
        assert(tiles_bytes(tiles) + Seq::<u8>::empty() =~= tiles_bytes(tiles));
    } else {
        lemma_tiles_from(tiles, k + 1);
        assert(tiles.take(k + 1).drop_last() =~= tiles.take(k));
        lemma_concat(
            tiles_bytes(tiles.take(k)),
            chunk_bytes(CHUNK_TDAT@, tiles[k]),
            tiles_from(tiles, k + 1),
        );
    }
}

proof fn lemma_sizes_bytes_len(sizes: Seq<u32>)
    ensures
        sizes_bytes(sizes).len() == 4 * sizes.len(),
    decreases sizes.len(),
{
    if sizes.len() > 0 {
        lemma_sizes_bytes_len(sizes.drop_last());
    }
}

/// The image information is read back from its header.
pub proof fn info_read_back(info: TngImageInfo)
    ensures
        ihdr_data(info).len() == 13,
        info_in(ihdr_data(info)) == info,
{
    let ihdr = ihdr_data(info);
    be32_round_trip(info.width);
    be32_round_trip(info.height);
    assert(ihdr.subrange(0, 4) =~= be32(info.width));
    assert(ihdr.subrange(4, 8) =~= be32(info.height));
}

/// The tile grid is read back from its header.
pub proof fn config_read_back(config: TngTileConfig)
    ensures
        thdr_data(config).len() == 24,
        config_in(thdr_data(config)) == carried(config),
{
    let thdr = thdr_data(config);
    be32_round_trip(config.num_tiles_x);
    be32_round_trip(config.num_tiles_y);
    be32_round_trip(config.tile_width);
    be32_round_trip(config.tile_height);
    be32_round_trip(config.edge_width);
    be32_round_trip(config.edge_height);
    assert(thdr.subrange(0, 4) =~= be32(config.num_tiles_x));
    assert(thdr.subrange(4, 8) =~= be32(config.num_tiles_y));
    assert(thdr.subrange(8, 12) =~= be32(config.tile_width));
    assert(thdr.subrange(12, 16) =~= be32(config.tile_height));
    assert(thdr.subrange(16, 20) =~= be32(config.edge_width));
    assert(thdr.subrange(20, 24) =~= be32(config.edge_height));
}

/// A decoder that has read the headers of an image.
pub open spec fn informed(info: TngImageInfo, config: TngTileConfig) -> TngDecoder {
    TngDecoder {
        info: Some(info),
        config: Some(carried(config)),
        bytes_per_pixel: crate::format::pixel_bytes(info.color_type, info.bit_depth) as usize,
    }
}

/// The headers are read back, whatever the decoder has seen before.
pub proof fn headers_read_back(
    decoder: TngDecoder,
    info: TngImageInfo,
    config: TngTileConfig,
    rest: Seq<u8>,
)
    ensures
        read_headers(
            decoder,
            chunk_bytes(CHUNK_IHDR@, ihdr_data(info)) + (chunk_bytes(
                CHUNK_THDR@,
                thdr_data(config),
            ) + rest),
        ) == (Headers::Read { decoder: informed(info, config), rest }),
{
    let ihdr = ihdr_data(info);
    let thdr = thdr_data(config);
    info_read_back(info);
    config_read_back(config);
    let after = chunk_bytes(CHUNK_THDR@, thdr) + rest;
    split_undoes_chunk(CHUNK_IHDR@, ihdr, after);
    split_undoes_chunk(CHUNK_THDR@, thdr, rest);
    lemma_headers_read_back(
        decoder,
        ihdr,
        thdr,
        chunk_bytes(CHUNK_IHDR@, ihdr) + after,
        after,
        rest,
    );
}

proof fn lemma_headers_read_back(
    decoder: TngDecoder,
    ihdr: Seq<u8>,
    thdr: Seq<u8>,
    input: Seq<u8>,
    after: Seq<u8>,
    rest: Seq<u8>,
)
    requires
        ihdr.len() >= 10,
        thdr.len() >= 24,
        split_chunk(input) == (ChunkRead::Whole { tag: CHUNK_IHDR@, data: ihdr, rest: after }),
        split_chunk(after) == (ChunkRead::Whole { tag: CHUNK_THDR@, data: thdr, rest }),
    ensures
        ({
            let info = info_in(ihdr);
            read_headers(decoder, input) == (Headers::Read {
                decoder: TngDecoder {
                    info: Some(info),
                    config: Some(config_in(thdr)),
                    bytes_per_pixel: crate::format::pixel_bytes(
                        info.color_type,
                        info.bit_depth,
                    ) as usize,
                },
                rest,
            })
        }),
{
    reveal_with_fuel(read_headers, 3);
    assert(CHUNK_THDR@[0] != CHUNK_IHDR@[0]);
}

impl TngEncoder {
    /// Whether `payload` holds the pixels of tile number `k`, counted row by row.
    pub open spec fn tile_kept(self, pixels: Seq<u8>, k: int, payload: Seq<u8>) -> bool {
        let ty = k / self.config.num_tiles_x as int;
        let tx = k % self.config.num_tiles_x as int;
        tile_written(
            payload,
            self.tile_of(self.band(pixels, ty), ty, tx),
            self.config.width_of(tx),
            self.config.height_of(ty),
            self.bytes_per_pixel as int,
            self.config.compression_algo,
            self.config.filter_algo,
        )
    }

    /// Where column `tx` starts in a row of pixels, or where the row ends.
    spec fn edge_at(self, tx: int) -> int {
        if tx == self.config.num_tiles_x {
            self.stride()
        } else {
            tx * self.config.tile_width * self.bytes_per_pixel
        }
    }
}

/// Tiles that stand for all pixels of an image, and a layout for them.
spec fn sound(enc: TngEncoder, layout: Layout, pixels: Seq<u8>, tiles: Seq<Seq<u8>>) -> bool {
    let n = enc.config.num_tiles_x as int;
    &&& layout.config == carried(enc.config)
    &&& layout.stride == enc.stride()
    &&& layout.bpp == enc.bytes_per_pixel
    &&& layout.fits()
    &&& enc.encodable()
    &&& n > 0
    &&& (n - 1) * enc.config.tile_width + enc.config.edge_width == enc.info.width
    &&& enc.config.edge_width <= enc.config.tile_width
    &&& enc.config.edge_height <= enc.config.tile_height
    &&& tiles.len() == enc.config.num_tiles_y * n
    &&& pixels.len() == enc.read_len(enc.config.num_tiles_y as int)
    &&& forall|k: int|
        0 <= k < tiles.len() ==> enc.tile_kept(pixels, k, #[trigger] tiles[k]) && tiles[k].len()
            <= u32::MAX
}

/// Whether the first `edge` bytes of every row of a band stand in `row`.
spec fn painted(row: Seq<u8>, band: Seq<u8>, len: int, stride: int, edge: int) -> bool {
    forall|i: int| 0 <= i < len && i % stride < edge ==> row[i] == #[trigger] band[i]
}

/// The place of a tile in its row.
proof fn lemma_place(
    enc: TngEncoder,
    layout: Layout,
    pixels: Seq<u8>,
    tiles: Seq<Seq<u8>>,
    ty: int,
    tx: int,
)
    requires
        sound(enc, layout, pixels, tiles),
        0 <= ty < enc.config.num_tiles_y,
        0 <= tx < enc.config.num_tiles_x,
    ensures
        layout.offset_of(tx) == enc.edge_at(tx),
        0 <= layout.offset_of(tx),
        0 <= layout.run_of(tx),
        layout.offset_of(tx) + layout.run_of(tx) == enc.edge_at(tx + 1),
        layout.offset_of(tx) + layout.run_of(tx) <= layout.stride,
        0 <= layout.config.height_of(ty) <= layout.config.tile_height,
        0 <= layout.config.height_of(ty) * layout.stride <= layout.row_len(),
        0 <= layout.config.width_of(tx) <= layout.config.tile_width,
{
    let n = enc.config.num_tiles_x as int;
    let tw = enc.config.tile_width as int;
    let ew = enc.config.edge_width as int;
    let b = enc.bytes_per_pixel as int;
    let h = layout.config.height_of(ty);
    let th = layout.config.tile_height as int;
    let s = layout.stride as int;
    assert(0 <= tx * tw * b) by (nonlinear_arith)
        requires
            0 <= tx,
            0 <= tw,
            0 <= b,
    ;
    assert(0 <= h * s <= th * s) by (nonlinear_arith)
        requires
            0 <= h <= th,
            0 <= s,
    ;
    if tx == n - 1 {
        assert((n - 1) * tw * b + ew * b == ((n - 1) * tw + ew) * b) by (nonlinear_arith);
        assert(0 <= ew * b) by (nonlinear_arith)
            requires
                0 <= ew,
                0 <= b,
        ;
    } else {
        assert(tx * tw * b + tw * b == (tx + 1) * tw * b) by (nonlinear_arith);
        assert(0 <= tw * b) by (nonlinear_arith)
            requires
                0 <= tw,
                0 <= b,
        ;
        assert((tx + 1) * tw * b <= ((n - 1) * tw + ew) * b) by (nonlinear_arith)
            requires
                tx + 1 <= n - 1,
                0 <= tw,
                0 <= ew,
                0 <= b,
        ;
    }
}

/// A tile that was kept paints its columns.
proof fn lemma_lay_tile(
    enc: TngEncoder,
    layout: Layout,
    pixels: Seq<u8>,
    tiles: Seq<Seq<u8>>,
    k: int,
    row: Seq<u8>,
)
    requires
        sound(enc, layout, pixels, tiles),
        0 <= k < tiles.len(),
        0 <= k / (enc.config.num_tiles_x as int) < enc.config.num_tiles_y,
        0 <= k % (enc.config.num_tiles_x as int) < enc.config.num_tiles_x,
        row.len() == layout.row_len(),
        ({
            let ty = k / enc.config.num_tiles_x as int;
            let tx = k % enc.config.num_tiles_x as int;
            painted(
                row,
                enc.band(pixels, ty),
                layout.config.height_of(ty) * layout.stride,
                layout.stride as int,
                enc.edge_at(tx),
            )
        }),
    ensures
        ({
            let ty = k / enc.config.num_tiles_x as int;
            let tx = k % enc.config.num_tiles_x as int;
            &&& !oversized(layout, ty, tx, tiles[k])
            &&& lay_tile(layout, ty, tx, tiles[k], row) matches Laid::Row(next)
            &&& next.len() == layout.row_len()
            &&& painted(
                next,
                enc.band(pixels, ty),
                layout.config.height_of(ty) * layout.stride,
                layout.stride as int,
                enc.edge_at(tx + 1),
            )
        }),
{
    let ty = k / enc.config.num_tiles_x as int;
    let tx = k % enc.config.num_tiles_x as int;
    let band = enc.band(pixels, ty);
    let w = layout.config.width_of(tx);
    let h = layout.config.height_of(ty);
    let b = layout.bpp as int;
    let s = layout.stride as int;
    let off = layout.offset_of(tx);
    let run = layout.run_of(tx);
    let tw = layout.config.tile_width as int;
    let th = layout.config.tile_height as int;
    lemma_place(enc, layout, pixels, tiles, ty, tx);
    lemma_tile_len(w, h, b);
    let tile = cut(band, s, off, run, h);
    assert(enc.tile_kept(pixels, k, tiles[k]));
    assert(enc.tile_of(band, ty, tx) == tile);
    assert(tile.take(tile_len(w, h, b)) =~= tile);
    assert(tile_pixels(tiles[k], w, h, b) == Some(tile));
    assert(w * h <= tw * th && w * h * b <= tw * th * b) by (nonlinear_arith)
        requires
            0 <= w <= tw,
            0 <= h <= th,
            0 <= b,
    ;
    if h > 0 {
        assert((h - 1) * s + s == h * s) by (nonlinear_arith);
    }
    let next = paste(row, tile, s, off, run, h as nat);
    lemma_paste_len(row, tile, s, off, run, h as nat);
    assert forall|i: int| 0 <= i < h * s && i % s < enc.edge_at(tx + 1) implies next[i]
        == #[trigger] band[i] by {
        assert(s > 0 && i / s < h) by (nonlinear_arith)
            requires
                0 <= i < h * s,
                0 <= h,
                0 <= s,
        ;
        lemma_paste_cut_index(row, band, s, off, run, h as nat, i);
    }
}

/// Tiles that were kept paint their columns, one after the other.
proof fn lemma_lay_tiles(
    enc: TngEncoder,
    layout: Layout,
    pixels: Seq<u8>,
    tiles: Seq<Seq<u8>>,
    ty: int,
    first: int,
    count: int,
    row: Seq<u8>,
)
    requires
        sound(enc, layout, pixels, tiles),
        0 <= ty < enc.config.num_tiles_y,
        0 <= first,
        0 <= count,
        first + count <= enc.config.num_tiles_x,
        row.len() == layout.row_len(),
        painted(
            row,
            enc.band(pixels, ty),
            layout.config.height_of(ty) * layout.stride,
            layout.stride as int,
            enc.edge_at(first),
        ),
    ensures
        ({
            let start = ty * enc.config.num_tiles_x + first;
            let some = tiles.subrange(start, start + count);
            &&& forall|i: int|
                0 <= i < count ==> !oversized(layout, ty, first + i, #[trigger] some[i])
            &&& lay_tiles(layout, ty, first, some, row) matches Laid::Row(next)
            &&& next.len() == layout.row_len()
            &&& painted(
                next,
                enc.band(pixels, ty),
                layout.config.height_of(ty) * layout.stride,
                layout.stride as int,
                enc.edge_at(first + count),
            )
        }),
    decreases count,
{
    let n = enc.config.num_tiles_x as int;
    let start = ty * n + first;
    assert(0 <= start && start + count <= enc.config.num_tiles_y * n) by (nonlinear_arith)
        requires
            start == ty * n + first,
            0 <= first,
            0 <= count,
            first + count <= n,
            0 <= ty,
            ty + 1 <= enc.config.num_tiles_y,
    ;
    if count > 0 {
        let k = start + count - 1;
        lemma_position(ty, first + count - 1, n, enc.config.num_tiles_y as int);
        lemma_lay_tiles(enc, layout, pixels, tiles, ty, first, count - 1, row);
        let some = tiles.subrange(start, start + count);
        let fewer = tiles.subrange(start, start + (count - 1));
        assert(some.drop_last() =~= fewer);
        assert(some.last() == tiles[k]);
        if let Laid::Row(so_far) = lay_tiles(layout, ty, first, fewer, row) {
            lemma_lay_tile(enc, layout, pixels, tiles, k, so_far);
        }
        assert forall|i: int| 0 <= i < count implies !oversized(
            layout,
            ty,
            first + i,
            #[trigger] some[i],
        ) by {
            if i < count - 1 {
                assert(some[i] == fewer[i]);
            }
        }
    }
}

impl TngEncoder {
    /// The pixels of the first `count` bands, band by band.
    pub open spec fn bands(self, pixels: Seq<u8>, count: int) -> Seq<Seq<u8>> {
        Seq::new(count as nat, |i: int| self.band(pixels, i))
    }
}

/// What the first reads gave, one after the other.
proof fn lemma_reads_join(enc: TngEncoder, h: History, bands: int, count: int)
    requires
        0 <= count <= bands <= enc.config.num_tiles_y,
        enc.bands_read(h, bands),
    ensures
        joined(h.reads().take(count)).len() == enc.read_len(count),
        h.got() == joined(h.reads().take(count)) + joined(h.reads().skip(count)),
    decreases count,
{
    let reads = h.reads();
    assert(reads =~= reads.take(count) + reads.skip(count));
    lemma_joined_adds(reads.take(count), reads.skip(count));
    if count > 0 {
        lemma_reads_join(enc, h, bands, count - 1);
        assert(reads.take(count).drop_last() =~= reads.take(count - 1));
        enc.lemma_read_len(count - 1);
    }
}

/// Each read gave one band.
pub proof fn lemma_reads_are_bands(enc: TngEncoder, h: History, bands: int, count: int)
    requires
        0 <= count <= bands <= enc.config.num_tiles_y,
        enc.bands_read(h, bands),
    ensures
        enc.bands(h.got(), count) == h.reads().take(count),
        joined(h.reads().take(count)) == h.got().take(enc.read_len(count)),
{
    let reads = h.reads();
    let pixels = h.got();
    lemma_reads_join(enc, h, bands, count);
    assert(joined(reads.take(count)) =~= pixels.take(enc.read_len(count)));
    assert forall|i: int| 0 <= i < count implies enc.band(pixels, i) == #[trigger] reads[i] by {
        let before = joined(reads.take(i));
        lemma_reads_join(enc, h, bands, i);
        lemma_reads_join(enc, h, bands, i + 1);
        enc.lemma_read_len(i);
        assert(reads.take(i + 1).drop_last() =~= reads.take(i));
        assert(joined(reads.take(i + 1)) == before + reads[i]);
        assert(enc.band(pixels, i) =~= reads[i]);
    }
    assert(enc.bands(pixels, count) =~= reads.take(count));
}

/// A decoder that has taken in the first `k` tiles.
spec fn good(
    enc: TngEncoder,
    layout: Layout,
    pixels: Seq<u8>,
    tiles: Seq<Seq<u8>>,
    k: int,
    state: Progress,
) -> bool {
    let ty = k / enc.config.num_tiles_x as int;
    let tx = k % enc.config.num_tiles_x as int;
    let waiting = tx % (BATCH_TILES as int);
    &&& state.tx == tx
    &&& state.ty == ty
    &&& state.batch == tiles.subrange(k - waiting, k)
    &&& state.row.len() == layout.row_len()
    &&& state.rows == enc.bands(pixels, ty)
    &&& painted(
        state.row,
        enc.band(pixels, ty),
        layout.config.height_of(ty) * layout.stride,
        layout.stride as int,
        enc.edge_at(tx - waiting),
    )
}

proof fn lemma_first_edge(enc: TngEncoder)
    requires
        enc.config.num_tiles_x > 0,
    ensures
        enc.edge_at(0) == 0,
{
    assert(0 * enc.config.tile_width * enc.bytes_per_pixel == 0) by (nonlinear_arith);
}

/// Where tile `k` and the next one lie.
proof fn lemma_columns(k: int, n: int, bands: int)
    requires
        0 < n,
        0 <= k < bands * n,
    ensures
        0 <= k / n < bands,
        0 <= k % n < n,
        k == (k / n) * n + k % n,
        k % n + 1 < n ==> (k + 1) / n == k / n && (k + 1) % n == k % n + 1,
        k % n + 1 == n ==> (k + 1) / n == k / n + 1 && (k + 1) % n == 0,
{
    let ty = k / n;
    let tx = k % n;
    assert(0 <= ty < bands && 0 <= tx < n && k == ty * n + tx) by (nonlinear_arith)
        requires
            0 <= k < bands * n,
            0 < n,
            ty == k / n,
            tx == k % n,
    ;
    if tx + 1 < n {
        lemma_position(ty, tx + 1, n, bands);
    } else {
        lemma_position(ty + 1, 0, n, bands + 1);
        assert(ty * n + n == (ty + 1) * n) by (nonlinear_arith);
    }
}

/// A batch that was kept is laid into the row.
proof fn lemma_flush(
    enc: TngEncoder,
    layout: Layout,
    pixels: Seq<u8>,
    tiles: Seq<Seq<u8>>,
    k: int,
    state: Progress,
)
    requires
        sound(enc, layout, pixels, tiles),
        0 <= k < tiles.len(),
        good(enc, layout, pixels, tiles, k, state),
    ensures
        ({
            let ty = k / enc.config.num_tiles_x as int;
            let tx = k % enc.config.num_tiles_x as int;
            let batch = state.batch.push(tiles[k]);
            &&& lay_batch(layout, ty, tx + 1 - batch.len(), batch, state.row) matches Laid::Row(row)
            &&& row.len() == layout.row_len()
            &&& painted(
                row,
                enc.band(pixels, ty),
                layout.config.height_of(ty) * layout.stride,
                layout.stride as int,
                enc.edge_at(tx + 1),
            )
        }),
{
    let n = enc.config.num_tiles_x as int;
    let ty = k / n;
    let tx = k % n;
    let waiting = tx % (BATCH_TILES as int);
    lemma_columns(k, n, enc.config.num_tiles_y as int);
    let batch = state.batch.push(tiles[k]);
    let first = tx - waiting;
    assert(batch =~= tiles.subrange(k - waiting, k + 1));
    lemma_lay_tiles(enc, layout, pixels, tiles, ty, first, waiting + 1, state.row);
    assert(tiles.subrange(ty * n + first, ty * n + first + (waiting + 1)) =~= batch);
    assert(batch_fits(layout, ty, first, batch));
}

/// A row that is painted to its end is the band.
proof fn lemma_row_done(
    enc: TngEncoder,
    layout: Layout,
    pixels: Seq<u8>,
    tiles: Seq<Seq<u8>>,
    ty: int,
    row: Seq<u8>,
)
    requires
        sound(enc, layout, pixels, tiles),
        0 <= ty < enc.config.num_tiles_y,
        row.len() == layout.row_len(),
        painted(
            row,
            enc.band(pixels, ty),
            layout.config.height_of(ty) * layout.stride,
            layout.stride as int,
            enc.edge_at(enc.config.num_tiles_x as int),
        ),
    ensures
        layout.config.height_of(ty) * layout.stride <= row.len(),
        enc.bands(pixels, ty).push(row.take(layout.config.height_of(ty) * layout.stride))
            == enc.bands(pixels, ty + 1),
{
    let len = layout.config.height_of(ty) * layout.stride;
    let band = enc.band(pixels, ty);
    let s = layout.stride as int;
    lemma_place(enc, layout, pixels, tiles, ty, enc.config.num_tiles_x - 1);
    enc.lemma_read_len(ty);
    enc.lemma_band_end(ty, enc.config.num_tiles_y as int);
    assert forall|i: int| 0 <= i < len implies row[i] == band[i] by {
        assert(s > 0 && i % s < s) by (nonlinear_arith)
            requires
                0 <= i < layout.config.height_of(ty) * s,
                0 <= layout.config.height_of(ty),
                0 <= s,
        ;
    }
    assert(row.take(len) =~= band);
    assert(enc.bands(pixels, ty).push(band) =~= enc.bands(pixels, ty + 1));
}

/// One more tile.
proof fn lemma_step(
    enc: TngEncoder,
    layout: Layout,
    pixels: Seq<u8>,
    tiles: Seq<Seq<u8>>,
    k: int,
    state: Progress,
)
    requires
        sound(enc, layout, pixels, tiles),
        0 <= k < tiles.len(),
        good(enc, layout, pixels, tiles, k, state),
    ensures
        take_tile(layout, state, tiles[k]) matches Step::Next(next) && good(
            enc,
            layout,
            pixels,
            tiles,
            k + 1,
            next,
        ),
{
    let n = enc.config.num_tiles_x as int;
    let ty = k / n;
    let tx = k % n;
    let waiting = tx % (BATCH_TILES as int);
    let batch = state.batch.push(tiles[k]);
    lemma_columns(k, n, enc.config.num_tiles_y as int);
    if !batch_due(layout, state) {
        assert(batch =~= tiles.subrange(k - waiting, k + 1));
    } else {
        lemma_flush(enc, layout, pixels, tiles, k, state);
        assert(tiles.subrange(k + 1, k + 1) =~= Seq::empty());
        if tx + 1 == n {
            lemma_first_edge(enc);
            if let Laid::Row(row) = lay_batch(
                layout,
                ty,
                tx + 1 - batch.len(),
                batch,
                state.row,
            ) {
                lemma_row_done(enc, layout, pixels, tiles, ty, row);
            }
        }
    }
}

/// The tiles from number `k` on, up to number `upto`, and the decoder after them.
proof fn lemma_tiles_read_back(
    enc: TngEncoder,
    layout: Layout,
    pixels: Seq<u8>,
    tiles: Seq<Seq<u8>>,
    k: int,
    upto: int,
    state: Progress,
    tail: Seq<u8>,
) -> (last: Progress)
    requires
        sound(enc, layout, pixels, tiles),
        0 <= k <= upto <= tiles.len(),
        good(enc, layout, pixels, tiles, k, state),
    ensures
        good(enc, layout, pixels, tiles, upto, last),
        read_tiles(layout, state, tiles_from(tiles.take(upto), k) + tail) == read_tiles(
            layout,
            last,
            tail,
        ),
    decreases upto - k,
{
    let some = tiles.take(upto);
    if k == upto {
        assert(tiles_from(some, k) + tail =~= tail);
        state
    } else {
        let next = lemma_tile_read_back(
            enc,
            layout,
            pixels,
            tiles,
            k,
            state,
            tiles_from(some, k + 1) + tail,
        );
        lemma_concat(chunk_bytes(CHUNK_TDAT@, tiles[k]), tiles_from(some, k + 1), tail);
        lemma_tiles_read_back(enc, layout, pixels, tiles, k + 1, upto, next, tail)
    }
}

/// Tile number `k`, and the decoder after it.
proof fn lemma_tile_read_back(
    enc: TngEncoder,
    layout: Layout,
    pixels: Seq<u8>,
    tiles: Seq<Seq<u8>>,
    k: int,
    state: Progress,
    rest: Seq<u8>,
) -> (next: Progress)
    requires
        sound(enc, layout, pixels, tiles),
        0 <= k < tiles.len(),
        good(enc, layout, pixels, tiles, k, state),
    ensures
        good(enc, layout, pixels, tiles, k + 1, next),
        read_tiles(layout, state, chunk_bytes(CHUNK_TDAT@, tiles[k]) + rest) == read_tiles(
            layout,
            next,
            rest,
        ),
{
    assert(enc.tile_kept(pixels, k, tiles[k]));
    lemma_step(enc, layout, pixels, tiles, k, state);
    let next = match take_tile(layout, state, tiles[k]) {
        Step::Next(next) => next,
        _ => state,
    };
    lemma_one_tile(layout, state, tiles[k], rest, next);
    next
}

proof fn lemma_concat(a: Seq<u8>, b: Seq<u8>, c: Seq<u8>)
    ensures
        (a + b) + c == a + (b + c),
{
    assert((a + b) + c =~= a + (b + c));
}

/// A tile that is taken in leads to the next state.
proof fn lemma_one_tile(
    layout: Layout,
    state: Progress,
    data: Seq<u8>,
    rest: Seq<u8>,
    next: Progress,
)
    requires
        data.len() <= u32::MAX,
        take_tile(layout, state, data) == Step::Next(next),
    ensures
        read_tiles(layout, state, chunk_bytes(CHUNK_TDAT@, data) + rest) == read_tiles(
            layout,
            next,
            rest,
        ),
{
    split_undoes_chunk(CHUNK_TDAT@, data, rest);
}

/// The tile index is skipped, and the end chunk ends the run.
proof fn lemma_tail(layout: Layout, state: Progress, index: Seq<u8>)
    requires
        index.len() <= u32::MAX,
    ensures
        read_tiles(
            layout,
            state,
            chunk_bytes(CHUNK_TIDX@, index) + chunk_bytes(CHUNK_IEND@, Seq::empty()),
        ) == (Decoded {
            rows: state.rows,
            rest: Seq::empty(),
            starved: None,
            end: Ok(0i32),
        }),
{
    let end = chunk_bytes(CHUNK_IEND@, Seq::empty());
    split_undoes_chunk(CHUNK_TIDX@, index, end);
    split_undoes_chunk(CHUNK_IEND@, Seq::empty(), Seq::empty());
    assert(end + Seq::<u8>::empty() =~= end);
    lemma_skip_and_end(layout, state, chunk_bytes(CHUNK_TIDX@, index) + end, end);
}

proof fn lemma_skip_and_end(layout: Layout, state: Progress, input: Seq<u8>, after: Seq<u8>)
    requires
        split_chunk(input) matches ChunkRead::Whole { tag, data, rest } && tag == CHUNK_TIDX@
            && rest == after,
        split_chunk(after) matches ChunkRead::Whole { tag, data, rest } && tag == CHUNK_IEND@
            && rest == Seq::<u8>::empty(),
    ensures
        read_tiles(layout, state, input) == (Decoded {
            rows: state.rows,
            rest: Seq::empty(),
            starved: None,
            end: Ok(0i32),
        }),
{
    reveal_with_fuel(read_tiles, 3);
    assert(CHUNK_TIDX@[0] != CHUNK_TDAT@[0] && CHUNK_TIDX@[0] != CHUNK_IEND@[0]);
    assert(CHUNK_IEND@[0] != CHUNK_TDAT@[0]);
}

/// What a run of the encoder that ended well has done.
proof fn lemma_success(enc: TngEncoder, h: History, tiles: Seq<Seq<u8>>)
    requires
        encoder_run(enc, h, Ok(0i32), tiles),
    ensures
        enc.encodable(),
        h.sent() == stream_bytes(enc.info, enc.config, tiles),
        enc.bands_read(h, enc.config.num_tiles_y as int),
        tiles.len() == enc.config.num_tiles_y * enc.config.num_tiles_x,
        h.got().len() == enc.read_len(enc.config.num_tiles_y as int),
        enc.tiles_made(h.got(), tiles),
{
    parts_make_the_stream(enc.info, enc.config, tiles);
}

/// The chunks after the tiles.
spec fn stream_tail(tiles: Seq<Seq<u8>>) -> Seq<u8> {
    chunk_bytes(CHUNK_TIDX@, index_data(tiles)) + chunk_bytes(CHUNK_IEND@, Seq::empty())
}

/// A stream up to its tiles.
proof fn lemma_head_read_back(
    info: TngImageInfo,
    config: TngTileConfig,
    rest: Seq<u8>,
    decoder: TngDecoder,
    layout: Layout,
)
    requires
        layout_of(info, carried(config), informed(info, config).bytes_per_pixel) == Some(layout),
    ensures
        decode(decoder, stream_head(info, config) + rest) == (
            informed(info, config),
            read_tiles(layout, no_tiles_yet(layout), rest),
        ),
{
    let ihdr = chunk_bytes(CHUNK_IHDR@, ihdr_data(info));
    let thdr = chunk_bytes(CHUNK_THDR@, thdr_data(config));
    lemma_parts(TNG_MAGIC@, ihdr, thdr, rest);
    headers_read_back(decoder, info, config, rest);
    lemma_decode_from_tiles(
        decoder,
        stream_head(info, config) + rest,
        info,
        config,
        layout,
        rest,
    );
}

/// The parts of a stream.
proof fn lemma_parts(magic: Seq<u8>, ihdr: Seq<u8>, thdr: Seq<u8>, rest: Seq<u8>)
    ensures
        ({
            let stream = magic + ihdr + thdr + rest;
            &&& stream.take(magic.len() as int) == magic
            &&& stream.skip(magic.len() as int) == ihdr + (thdr + rest)
        }),
{
    let stream = magic + ihdr + thdr + rest;
    assert(stream.take(magic.len() as int) =~= magic);
    assert(stream.skip(magic.len() as int) =~= ihdr + (thdr + rest));
}

/// A stream is its head, its tiles and its tail.
proof fn lemma_stream_parts(info: TngImageInfo, config: TngTileConfig, tiles: Seq<Seq<u8>>)
    ensures
        stream_bytes(info, config, tiles) == stream_head(info, config) + (tiles_bytes(tiles)
            + stream_tail(tiles)),
{
    let head = stream_head(info, config);
    let tidx = chunk_bytes(CHUNK_TIDX@, index_data(tiles));
    let iend = chunk_bytes(CHUNK_IEND@, Seq::empty());
    lemma_concat(head + tiles_bytes(tiles), tidx, iend);
    lemma_concat(head, tiles_bytes(tiles), tidx + iend);
}

/// A run whose headers were read goes on with the tiles.
proof fn lemma_decode_from_tiles(
    decoder: TngDecoder,
    input: Seq<u8>,
    info: TngImageInfo,
    config: TngTileConfig,
    layout: Layout,
    rest: Seq<u8>,
)
    requires
        input.len() >= 8,
        input.take(8) == TNG_MAGIC@,
        read_headers(decoder, input.skip(8)) == (Headers::Read {
            decoder: informed(info, config),
            rest,
        }),
        layout_of(info, carried(config), informed(info, config).bytes_per_pixel) == Some(layout),
    ensures
        decode(decoder, input) == (
            informed(info, config),
            read_tiles(layout, no_tiles_yet(layout), rest),
        ),
{
}

/// The tiles of a stream and what follows them.
proof fn lemma_body_read_back(
    enc: TngEncoder,
    layout: Layout,
    pixels: Seq<u8>,
    tiles: Seq<Seq<u8>>,
)
    requires
        sound(enc, layout, pixels, tiles),
        4 * tiles.len() <= u32::MAX,
    ensures
        read_tiles(layout, no_tiles_yet(layout), tiles_bytes(tiles) + stream_tail(tiles)) == (
        Decoded {
            rows: enc.bands(pixels, enc.config.num_tiles_y as int),
            rest: Seq::empty(),
            starved: None,
            end: Ok(0i32),
        }),
{
    let n = enc.config.num_tiles_x as int;
    let count = tiles.len() as int;
    let tail = stream_tail(tiles);
    let start = no_tiles_yet(layout);
    lemma_sizes_bytes_len(tile_sizes(tiles));
    lemma_start(enc, layout, pixels, tiles);
    let last = lemma_tiles_read_back(enc, layout, pixels, tiles, 0, count, start, tail);
    assert(tiles.take(count) =~= tiles);
    lemma_all_from(tiles);
    lemma_position(enc.config.num_tiles_y as int, 0, n, enc.config.num_tiles_y + 1);
    lemma_tail(layout, last, index_data(tiles));
}

/// The chunks of all tiles.
proof fn lemma_all_from(tiles: Seq<Seq<u8>>)
    ensures
        tiles_from(tiles, 0) == tiles_bytes(tiles),
{
    lemma_tiles_from(tiles, 0);
    assert(tiles.take(0) =~= Seq::<Seq<u8>>::empty());
    assert(tiles_bytes(tiles) =~= tiles_from(tiles, 0));
}

/// A decoder that has read the headers has taken in no tiles.
proof fn lemma_start(enc: TngEncoder, layout: Layout, pixels: Seq<u8>, tiles: Seq<Seq<u8>>)
    requires
        sound(enc, layout, pixels, tiles),
    ensures
        good(enc, layout, pixels, tiles, 0, no_tiles_yet(layout)),
{
    let n = enc.config.num_tiles_x as int;
    assert(0int % n == 0 && 0int / n == 0) by (nonlinear_arith)
        requires
            n > 0,
    ;
    lemma_first_edge(enc);
    assert(tiles.subrange(0, 0) =~= Seq::empty());
    assert(enc.bands(pixels, 0) =~= Seq::empty());
}

/// A stream without tiles.
proof fn lemma_no_tiles_read_back(layout: Layout)
    ensures
        ({
            let none = Seq::<Seq<u8>>::empty();
            read_tiles(layout, no_tiles_yet(layout), tiles_bytes(none) + stream_tail(none)) == (
            Decoded { rows: Seq::empty(), rest: Seq::empty(), starved: None, end: Ok(0i32) })
        }),
{
    let none = Seq::<Seq<u8>>::empty();
    assert(tiles_bytes(none) + stream_tail(none) =~= stream_tail(none));
    lemma_sizes_bytes_len(tile_sizes(none));
    lemma_tail(layout, no_tiles_yet(layout), index_data(none));
}

/// An image without bands or without width has no pixels.
proof fn lemma_no_pixels(enc: TngEncoder)
    requires
        enc.config.num_tiles_y == 0 || enc.info.width == 0,
    ensures
        enc.read_len(enc.config.num_tiles_y as int) == 0,
{
    let bands = enc.config.num_tiles_y as int;
    let s = enc.stride();
    if bands > 0 {
        assert(s == 0) by (nonlinear_arith)
            requires
                s == enc.info.width * enc.bytes_per_pixel,
                enc.info.width == 0,
        ;
        assert(enc.read_len(bands) == 0) by (nonlinear_arith)
            requires
                s == 0,
                enc.read_len(bands) == (bands - 1) * (enc.config.tile_height * s)
                    + enc.config.height_of(bands - 1) * s,
        ;
    }
}

/// What an encoder wrote is decoded to the pixels it read: after a run of the encoder
/// that ended with code 0, any decoder that is given the bytes that were written reads
/// all of them, ends with code 0, and writes exactly the pixels that the encoder read. Each
/// band that one call of the encoder read, one call of the decoder writes; where there are no
/// tiles there are no pixels, and no call.
///
/// The tiles must cover the image, zstd may not have given up on a tile (no other
/// compressor does), and the sizes must be within reach: payloads and the tile index
/// short enough for their 32-bit length fields, and a row of tiles small enough for a
/// buffer.
pub proof fn decode_undoes_encode(
    enc: TngEncoder,
    h: History,
    tiles: Seq<Seq<u8>>,
    decoder: TngDecoder,
)
    requires
        enc.wf(),
        encoder_run(enc, h, Ok(0i32), tiles),
        covers(enc.info, enc.config),
        forall|k: int|
            0 <= k < tiles.len() ==> #[trigger] tiles[k].len() <= u32::MAX && !tile_lost(
                tiles[k],
                enc.config.compression_algo,
                enc.config.filter_algo,
            ),
        4 * tiles.len() <= u32::MAX,
        layout_of(enc.info, enc.config, enc.bytes_per_pixel) is Some,
    ensures
        decode(decoder, h.sent()) == (
            informed(enc.info, enc.config),
            Decoded {
                rows: if enc.config.num_tiles_x > 0 {
                    h.reads()
                } else {
                    Seq::empty()
                },
                rest: Seq::empty(),
                starved: None,
                end: Ok(0i32),
            },
        ),
        decode(decoder, h.sent()).1.output() == h.got(),
{
    let pixels = h.got();
    let n = enc.config.num_tiles_x as int;
    let bands = enc.config.num_tiles_y as int;
    let layout = layout_of(enc.info, carried(enc.config), enc.bytes_per_pixel)->0;
    lemma_success(enc, h, tiles);
    crate::format::lemma_pixel_bytes_bound(enc.info.color_type, enc.info.bit_depth);
    lemma_stream_parts(enc.info, enc.config, tiles);
    lemma_head_read_back(
        enc.info,
        enc.config,
        tiles_bytes(tiles) + stream_tail(tiles),
        decoder,
        layout,
    );
    if bands == 0 || n == 0 {
        assert(bands * n == 0) by (nonlinear_arith)
            requires
                bands == 0 || n == 0,
        ;
        assert(tiles =~= Seq::empty());
        lemma_no_pixels(enc);
        assert(pixels =~= Seq::empty());
        lemma_no_tiles_read_back(layout);
        if bands == 0 {
            assert(h.reads() =~= Seq::empty());
        }
        assert(joined(Seq::<Seq<u8>>::empty()) =~= pixels);
    } else {
        assert forall|k: int| 0 <= k < tiles.len() implies enc.tile_kept(
            pixels,
            k,
            #[trigger] tiles[k],
        ) && tiles[k].len() <= u32::MAX by {
            assert(tiles[k].len() <= u32::MAX);
        }
        lemma_body_read_back(enc, layout, pixels, tiles);
        lemma_reads_are_bands(enc, h, bands, bands);
        assert(h.reads().take(bands) =~= h.reads());
    }
}

/// How many rows of tiles are complete among the first `tiles` tiles.
pub open spec fn complete_rows(tiles: int, per_row: int) -> int {
    if per_row == 0 {
        0
    } else {
        tiles / per_row
    }
}

proof fn lemma_rows_within(tiles: int, n: int, bands: int)
    requires
        0 < n,
        0 <= tiles <= bands * n,
    ensures
        0 <= complete_rows(tiles, n) <= bands,
{
    assert(0 <= tiles / n <= bands) by (nonlinear_arith)
        requires
            0 < n,
            0 <= tiles <= bands * n,
    ;
}

/// Whether exactly the first `count` tiles of a stream lie whole within its first `len`
/// bytes.
pub open spec fn holds_tiles(
    enc: TngEncoder,
    tiles: Seq<Seq<u8>>,
    len: int,
    count: int,
) -> bool {
    &&& 0 <= count <= tiles.len()
    &&& enc.head().len() + tiles_bytes(tiles.take(count)).len() <= len
    &&& count < tiles.len() ==> len < enc.head().len() + tiles_bytes(tiles.take(count + 1)).len()
}

/// A tile that lacks bytes at its end is not taken in.
proof fn lemma_partial_tile(layout: Layout, state: Progress, data: Seq<u8>, len: int)
    requires
        data.len() <= u32::MAX,
        0 <= len < chunk_bytes(CHUNK_TDAT@, data).len(),
    ensures
        ({
            let run = read_tiles(layout, state, chunk_bytes(CHUNK_TDAT@, data).take(len));
            run.rows == state.rows && run.end == Ok::<i32, TngFault>(0)
        }),
{
    crate::chunk::split_notices_missing_bytes(CHUNK_TDAT@, data, len);
}

/// However much there is of the tail, it adds no pixels.
proof fn lemma_partial_tail(layout: Layout, state: Progress, index: Seq<u8>, len: int)
    requires
        index.len() <= u32::MAX,
        0 <= len <= (chunk_bytes(CHUNK_TIDX@, index) + chunk_bytes(
            CHUNK_IEND@,
            Seq::empty(),
        )).len(),
    ensures
        ({
            let tail = chunk_bytes(CHUNK_TIDX@, index) + chunk_bytes(CHUNK_IEND@, Seq::empty());
            let run = read_tiles(layout, state, tail.take(len));
            run.rows == state.rows && run.end == Ok::<i32, TngFault>(0)
        }),
{
    let tidx = chunk_bytes(CHUNK_TIDX@, index);
    let iend = chunk_bytes(CHUNK_IEND@, Seq::empty());
    let part = (tidx + iend).take(len);
    if len < tidx.len() {
        assert(part =~= tidx.take(len));
        crate::chunk::split_notices_missing_bytes(CHUNK_TIDX@, index, len);
    } else {
        let rest = iend.take(len - tidx.len());
        assert(part =~= tidx + rest);
        assert(CHUNK_TIDX@[0] != CHUNK_TDAT@[0] && CHUNK_TIDX@[0] != CHUNK_IEND@[0]);
        crate::decoder::unknown_tile_chunk_is_skipped(layout, state, CHUNK_TIDX@, index, rest);
        if rest.len() < iend.len() {
            crate::chunk::split_notices_missing_bytes(
                CHUNK_IEND@,
                Seq::empty(),
                rest.len() as int,
            );
        } else {
            assert(rest =~= iend);
            assert(iend + Seq::<u8>::empty() =~= iend);
            split_undoes_chunk(CHUNK_IEND@, Seq::empty(), Seq::empty());
            assert(CHUNK_IEND@[0] != CHUNK_TDAT@[0]);
        }
    }
}

/// What the first `len` bytes hold of the tiles and the tail.
proof fn lemma_body_part(tiles: Seq<Seq<u8>>, tail: Seq<u8>, count: int, len: int)
    requires
        0 <= count <= tiles.len(),
        tiles_bytes(tiles.take(count)).len() <= len <= (tiles_bytes(tiles) + tail).len(),
        count < tiles.len() ==> len < tiles_bytes(tiles.take(count + 1)).len(),
    ensures
        ({
            let whole = tiles_bytes(tiles.take(count));
            let more = len - whole.len();
            let part = if count < tiles.len() {
                chunk_bytes(CHUNK_TDAT@, tiles[count]).take(more)
            } else {
                tail.take(more)
            };
            &&& (tiles_bytes(tiles) + tail).take(len) == whole + part
            &&& count < tiles.len() ==> more < chunk_bytes(CHUNK_TDAT@, tiles[count]).len()
            &&& count == tiles.len() ==> more <= tail.len()
        }),
{
    let whole = tiles_bytes(tiles.take(count));
    let body = tiles_bytes(tiles) + tail;
    if count < tiles.len() {
        let chunk = chunk_bytes(CHUNK_TDAT@, tiles[count]);
        assert(tiles.take(count + 1).drop_last() =~= tiles.take(count));
        lemma_tiles_from(tiles, count + 1);
        assert(body.take(len) =~= whole + chunk.take(len - whole.len()));
    } else {
        assert(tiles.take(count) =~= tiles);
        assert(body.take(len) =~= whole + tail.take(len - whole.len()));
    }
}

/// The tiles and the tail as far as `len` bytes go.
proof fn lemma_body_part_read(
    enc: TngEncoder,
    layout: Layout,
    pixels: Seq<u8>,
    tiles: Seq<Seq<u8>>,
    count: int,
    len: int,
)
    requires
        sound(enc, layout, pixels, tiles),
        4 * tiles.len() <= u32::MAX,
        0 <= count <= tiles.len(),
        tiles_bytes(tiles.take(count)).len() <= len <= (tiles_bytes(tiles)
            + stream_tail(tiles)).len(),
        count < tiles.len() ==> len < tiles_bytes(tiles.take(count + 1)).len(),
    ensures
        ({
            let body = tiles_bytes(tiles) + stream_tail(tiles);
            let run = read_tiles(layout, no_tiles_yet(layout), body.take(len));
            &&& run.rows == enc.bands(pixels, count / enc.config.num_tiles_x as int)
            &&& run.end == Ok::<i32, TngFault>(0)
        }),
{
    let start = no_tiles_yet(layout);
    let tail = stream_tail(tiles);
    let more = len - tiles_bytes(tiles.take(count)).len();
    let part = if count < tiles.len() {
        chunk_bytes(CHUNK_TDAT@, tiles[count]).take(more)
    } else {
        tail.take(more)
    };
    lemma_body_part(tiles, tail, count, len);
    lemma_start(enc, layout, pixels, tiles);
    lemma_all_from(tiles.take(count));
    let last = lemma_tiles_read_back(enc, layout, pixels, tiles, 0, count, start, part);
    if count < tiles.len() {
        assert(enc.tile_kept(pixels, count, tiles[count]));
        lemma_partial_tile(layout, last, tiles[count], more);
    } else {
        lemma_sizes_bytes_len(tile_sizes(tiles));
        lemma_partial_tail(layout, last, index_data(tiles), more);
    }
}

/// A stream that breaks off within its headers gives no pixels.
proof fn lemma_cut_head(
    info: TngImageInfo,
    config: TngTileConfig,
    rest: Seq<u8>,
    decoder: TngDecoder,
    len: int,
)
    requires
        0 <= len < stream_head(info, config).len(),
    ensures
        decode(decoder, (stream_head(info, config) + rest).take(len)).1.rows.len() == 0,
{
    let ihdr = chunk_bytes(CHUNK_IHDR@, ihdr_data(info));
    let thdr = chunk_bytes(CHUNK_THDR@, thdr_data(config));
    let stream = stream_head(info, config) + rest;
    let part = stream.take(len);
    lemma_parts(TNG_MAGIC@, ihdr, thdr, rest);
    headers_read_back(decoder, info, config, rest);
    if len >= 8 {
        let missing = stream.skip(len);
        assert(stream.skip(8) =~= part.skip(8) + missing);
        crate::decoder::lemma_headers_extend(decoder, part.skip(8), missing);
        if let Headers::Read { decoder: seen, rest: left } = read_headers(decoder, part.skip(8)) {
            assert(left + missing == rest);
            assert(missing.len() > rest.len());
        }
    }
}

/// A stream that breaks off gives exactly the rows of tiles that are complete: of a stream
/// that an encoder wrote, any number of bytes from its start is decoded to the pixels of
/// the rows of tiles whose chunks lie whole within them, and the code is 0 unless the
/// stream breaks off within its headers. Each such row is written by one call, and is what one
/// call of the encoder read; there are no other calls that write.
///
/// The requirements are those under which the whole stream is decoded to all pixels.
pub proof fn cut_stream_gives_complete_rows(
    enc: TngEncoder,
    h: History,
    tiles: Seq<Seq<u8>>,
    decoder: TngDecoder,
    len: int,
    count: int,
)
    requires
        enc.wf(),
        encoder_run(enc, h, Ok(0i32), tiles),
        covers(enc.info, enc.config),
        forall|k: int|
            0 <= k < tiles.len() ==> #[trigger] tiles[k].len() <= u32::MAX && !tile_lost(
                tiles[k],
                enc.config.compression_algo,
                enc.config.filter_algo,
            ),
        4 * tiles.len() <= u32::MAX,
        layout_of(enc.info, enc.config, enc.bytes_per_pixel) is Some,
        0 <= len <= h.sent().len(),
    ensures
        len < enc.head().len() ==> decode(decoder, h.sent().take(len)).1.rows.len() == 0,
        holds_tiles(enc, tiles, len, count) ==> {
            let run = decode(decoder, h.sent().take(len)).1;
            let rows = complete_rows(count, enc.config.num_tiles_x as int);
            &&& run.rows == h.reads().take(rows)
            &&& run.output() == h.got().take(enc.read_len(rows))
            &&& run.end == Ok::<i32, TngFault>(0)
        },
{
    let head = enc.head();
    let body = tiles_bytes(tiles) + stream_tail(tiles);
    let n = enc.config.num_tiles_x as int;
    let bands = enc.config.num_tiles_y as int;
    let layout = layout_of(enc.info, carried(enc.config), enc.bytes_per_pixel)->0;
    lemma_success(enc, h, tiles);
    lemma_stream_parts(enc.info, enc.config, tiles);
    crate::format::lemma_pixel_bytes_bound(enc.info.color_type, enc.info.bit_depth);
    if len < head.len() {
        lemma_cut_head(enc.info, enc.config, body, decoder, len);
    }
    if holds_tiles(enc, tiles, len, count) {
        let part = body.take(len - head.len());
        assert(h.sent().take(len) =~= head + part);
        lemma_head_read_back(enc.info, enc.config, part, decoder, layout);
        if bands == 0 || n == 0 {
            assert(bands * n == 0) by (nonlinear_arith)
                requires
                    bands == 0 || n == 0,
            ;
            assert(complete_rows(0, n) == 0) by {
                if n > 0 {
                    lemma_position(0, 0, n, 1);
                }
            }
            assert(h.got().take(0) =~= Seq::empty());
            assert(h.reads().take(0) =~= Seq::empty());
            assert(body =~= stream_tail(tiles));
            lemma_sizes_bytes_len(tile_sizes(tiles));
            lemma_partial_tail(
                layout,
                no_tiles_yet(layout),
                index_data(tiles),
                len - head.len(),
            );
        } else {
            assert forall|k: int| 0 <= k < tiles.len() implies enc.tile_kept(
                h.got(),
                k,
                #[trigger] tiles[k],
            ) && tiles[k].len() <= u32::MAX by {
                assert(tiles[k].len() <= u32::MAX);
            }
            lemma_body_part_read(enc, layout, h.got(), tiles, count, len - head.len());
            lemma_rows_within(count, n, bands);
            lemma_reads_are_bands(enc, h, bands, complete_rows(count, n));
        }
    }
}

} // verus!
