//! What runs of the encoder, and runs of the decoder, have in common.

use crate::channel::{lemma_calls_in_order, lengths, History};
use crate::chunk::{chunk_parts, split_chunk, ChunkRead};
use crate::decoder::{
    completed_row, decode, decode_last_tile, decoder_run, failed_reads, last_tile, layout_of,
    memory_may_end, no_tiles_yet, read_headers, read_tiles, stream_cuts, take_tile, Headers, Layout,
    Progress, Step,
};
use crate::encoder::{
    encodable_runs_are_sound, encoder_run, ihdr_data, index_data, stopped_in_chunk, stream_parts,
    thdr_data, tiles_parts,
};
use crate::format::{
    TngDecoder, TngEncoder, TngFault, TngTileConfig, CHUNK_IEND, CHUNK_IHDR, CHUNK_TDAT,
    CHUNK_THDR, CHUNK_TIDX, TNG_MAGIC,
};
use crate::roundtrip::{covers, decode_undoes_encode, informed, lemma_reads_are_bands};
use crate::tile::{is_stored, tile_lost};
use vstd::prelude::*;

verus! {

/// Where no read and no write fails, and the threads could be started, an image that can be
/// handled is encoded: the code is 0.
pub proof fn undisturbed_runs_succeed(
    enc: TngEncoder,
    h: History,
    end: Result<i32, TngFault>,
    tiles: Seq<Seq<u8>>,
)
    requires
        enc.encodable(),
        encoder_run(enc, h, end, tiles),
        h.clean(),
        end != Err::<i32, TngFault>(TngFault::NoThreads),
    ensures
        end == Ok::<i32, TngFault>(0),
{
    encodable_runs_are_sound(enc, h, tiles);
    assert forall|ty: int| !#[trigger] enc.stopped_at_band(h, tiles, ty) by {}
    assert forall|ty: int| !#[trigger] enc.stopped_in_tile(h, tiles, ty) by {}
}

/// `enc` with another number of threads.
pub open spec fn with_threads(enc: TngEncoder, threads: u32) -> TngEncoder {
    TngEncoder { config: TngTileConfig { threads, ..enc.config }, ..enc }
}

/// The bytes of a stored tile follow from its pixels.
proof fn lemma_stored_tile(
    enc: TngEncoder,
    threads: u32,
    band: Seq<u8>,
    ty: int,
    tx: int,
    a: Seq<u8>,
    b: Seq<u8>,
)
    requires
        is_stored(enc.config.compression_algo),
        enc.tile_made(band, ty, tx, a),
        with_threads(enc, threads).tile_made(band, ty, tx, b),
    ensures
        a == b,
{
    assert(with_threads(enc, threads).tile_of(band, ty, tx) == enc.tile_of(band, ty, tx));
    assert(a =~= seq![a[0], a[1]] + a.skip(2));
    assert(b =~= seq![b[0], b[1]] + b.skip(2));
}

/// The number of threads does not matter, nor does it matter that a run is repeated: two runs
/// over the same pixels that nothing disturbs end in the same way and write the same bytes, call
/// by call.
///
/// This holds where tiles are stored as they are; which of several bodies a compressor
/// writes is left open.
pub proof fn threads_do_not_matter(
    enc: TngEncoder,
    threads: u32,
    a: History,
    b: History,
    end_a: Result<i32, TngFault>,
    end_b: Result<i32, TngFault>,
    tiles_a: Seq<Seq<u8>>,
    tiles_b: Seq<Seq<u8>>,
)
    requires
        enc.encodable(),
        is_stored(enc.config.compression_algo),
        encoder_run(enc, a, end_a, tiles_a),
        encoder_run(with_threads(enc, threads), b, end_b, tiles_b),
        a.clean(),
        b.clean(),
        end_a != Err::<i32, TngFault>(TngFault::NoThreads),
        end_b != Err::<i32, TngFault>(TngFault::NoThreads),
        a.got() == b.got(),
    ensures
        end_a == end_b,
        a.writes() == b.writes(),
        a.sent() == b.sent(),
        tiles_a == tiles_b,
{
    let other = with_threads(enc, threads);
    lemma_threads_and_sizes(enc, threads);
    undisturbed_runs_succeed(enc, a, end_a, tiles_a);
    undisturbed_runs_succeed(other, b, end_b, tiles_b);
    let n = enc.config.num_tiles_x as int;
    assert(tiles_a.len() == tiles_b.len());
    assert forall|k: int| 0 <= k < tiles_a.len() implies tiles_a[k] == tiles_b[k] by {
        let ty = k / n;
        let band = enc.band(a.got(), ty);
        assert(other.band(b.got(), ty) == band);
        assert(other.tile_made(band, ty, k % n, tiles_b[k]));
        assert(enc.tile_made(band, ty, k % n, tiles_a[k]));
        lemma_stored_tile(enc, threads, band, ty, k % n, tiles_a[k], tiles_b[k]);
    }
    assert(tiles_a =~= tiles_b);
}

/// Whatever compressor is used, the number of threads does not change the image: the streams
/// that two runs wrote over the same pixels are decoded alike, call by call.
///
/// The requirements are those under which a stream is decoded to the pixels it was made of.
pub proof fn threads_do_not_change_the_image(
    enc: TngEncoder,
    threads: u32,
    a: History,
    b: History,
    tiles_a: Seq<Seq<u8>>,
    tiles_b: Seq<Seq<u8>>,
    decoder: TngDecoder,
)
    requires
        enc.wf(),
        covers(enc.info, enc.config),
        layout_of(enc.info, enc.config, enc.bytes_per_pixel) is Some,
        encoder_run(enc, a, Ok(0i32), tiles_a),
        encoder_run(with_threads(enc, threads), b, Ok(0i32), tiles_b),
        kept(enc, tiles_a),
        kept(enc, tiles_b),
        a.got() == b.got(),
    ensures
        decode(decoder, a.sent()) == decode(decoder, b.sent()),
{
    let other = with_threads(enc, threads);
    let bands = enc.config.num_tiles_y as int;
    assert(layout_of(other.info, other.config, other.bytes_per_pixel) is Some);
    decode_undoes_encode(enc, a, tiles_a, decoder);
    decode_undoes_encode(other, b, tiles_b, decoder);
    lemma_reads_are_bands(enc, a, bands, bands);
    lemma_reads_are_bands(other, b, bands, bands);
    assert(enc.bands(a.got(), bands) =~= other.bands(b.got(), bands)) by {
        assert forall|i: int| 0 <= i < bands implies enc.band(a.got(), i) == #[trigger] other.band(
            b.got(),
            i,
        ) by {}
    }
    assert(a.reads().take(bands) =~= a.reads());
    assert(b.reads().take(bands) =~= b.reads());
    assert(informed(enc.info, enc.config) == informed(other.info, other.config));
}

/// Whether no tile was lost, and the payloads and the tile index are short enough for their
/// 32-bit length fields.
pub open spec fn kept(enc: TngEncoder, tiles: Seq<Seq<u8>>) -> bool {
    &&& 4 * tiles.len() <= u32::MAX
    &&& forall|k: int|
        0 <= k < tiles.len() ==> #[trigger] tiles[k].len() <= u32::MAX && !tile_lost(
            tiles[k],
            enc.config.compression_algo,
            enc.config.filter_algo,
        )
}

/// The number of threads changes no size.
proof fn lemma_threads_and_sizes(enc: TngEncoder, threads: u32)
    requires
        enc.encodable(),
    ensures
        with_threads(enc, threads).encodable(),
{
    let other = with_threads(enc, threads);
    assert(other.stride() == enc.stride());
    assert forall|ty: int| 0 <= ty < other.config.num_tiles_y implies #[trigger] other.band_fits(ty)
        && other.tiles_fit(ty) by {
        assert(enc.band_fits(ty));
        assert(enc.tiles_fit(ty));
    }
}

/// A grid that tiles an image whose pixels fit in memory can be handled: the tiles of a row are
/// as wide as the image, those of a column as high, and none is empty or larger than the
/// tile size.
pub proof fn tiling_grids_are_encodable(enc: TngEncoder)
    requires
        enc.config.num_tiles_x >= 1,
        enc.config.num_tiles_y >= 1,
        (enc.config.num_tiles_x - 1) * enc.config.tile_width + enc.config.edge_width
            == enc.info.width,
        (enc.config.num_tiles_y - 1) * enc.config.tile_height + enc.config.edge_height
            == enc.info.height,
        1 <= enc.config.edge_width <= enc.config.tile_width,
        1 <= enc.config.edge_height <= enc.config.tile_height,
        enc.stride() <= usize::MAX,
        enc.info.height * enc.stride() <= isize::MAX,
    ensures
        enc.encodable(),
{
    let s = enc.stride();
    let before = (enc.config.num_tiles_x - 1) * enc.config.tile_width;
    let edge = enc.config.edge_width;
    let bpp = enc.bytes_per_pixel;
    assert(s >= 0 && before * bpp + edge * bpp == s) by (nonlinear_arith)
        requires
            before + edge == enc.info.width,
            s == enc.info.width * bpp,
    ;
    let bands = enc.config.num_tiles_y;
    let full = enc.config.tile_height;
    assert((bands - 1) * full >= 0 && (bands > 1 ==> (bands - 1) * full >= full))
        by (nonlinear_arith)
        requires
            bands >= 1,
    ;
    assert forall|ty: int| 0 <= ty < bands implies #[trigger] enc.band_fits(ty) && enc.tiles_fit(
        ty,
    ) by {
        let height = enc.config.height_of(ty);
        assert(height * s <= enc.info.height * s) by (nonlinear_arith)
            requires
                0 <= height <= enc.info.height,
                s >= 0,
        ;
    }
}

impl TngEncoder {
    /// The sizes of all bands.
    pub open spec fn band_sizes(self) -> Seq<nat> {
        Seq::new(self.config.num_tiles_y as nat, |ty: int| self.band_len(ty) as nat)
    }
}

/// A run of the encoder makes no call after one that failed.
proof fn lemma_encoder_calls(
    enc: TngEncoder,
    h: History,
    end: Result<i32, TngFault>,
    tiles: Seq<Seq<u8>>,
)
    requires
        encoder_run(enc, h, end, tiles),
    ensures
        h.asked() == lengths(h.reads()) + h.short(),
        h.offered() == h.writes() + h.refused(),
{
    lemma_calls_in_order(h);
}

/// Every band is read by one call: whatever becomes of a run of the encoder, the sizes that it
/// asks for are those of the bands, in order, and a run that ends with code 0 has asked for
/// all of them.
pub proof fn one_read_per_band(
    enc: TngEncoder,
    h: History,
    end: Result<i32, TngFault>,
    tiles: Seq<Seq<u8>>,
)
    requires
        encoder_run(enc, h, end, tiles),
    ensures
        h.asked().is_prefix_of(enc.band_sizes()),
        end == Ok::<i32, TngFault>(0) ==> h.asked() == enc.band_sizes(),
{
    lemma_encoder_calls(enc, h, end, tiles);
}

/// Where writing stopped within a chunk, what was offered is the start of what would have been
/// written.
proof fn lemma_stopped_prefix(
    before: Seq<Seq<u8>>,
    h: History,
    tag: Seq<u8>,
    data: Seq<u8>,
    after: Seq<Seq<u8>>,
)
    requires
        stopped_in_chunk(before, h, tag, data),
        h.offered() == h.writes() + h.refused(),
    ensures
        h.offered().is_prefix_of(before + chunk_parts(tag, data) + after),
{
    let parts = chunk_parts(tag, data);
    let k = choose|k: int|
        0 <= k < parts.len() && h.writes() == before + #[trigger] parts.take(k) && h.refused()
            == seq![parts[k]];
    assert(h.offered() =~= before + parts.take(k + 1));
}

/// Every part is written by one call: whatever becomes of a run of the encoder, the data that
/// it offers are the parts of a stream, in order, and a run that ends with code 0 has offered
/// all of them.
#[verifier::rlimit(30)]
pub proof fn one_write_per_part(
    enc: TngEncoder,
    h: History,
    end: Result<i32, TngFault>,
    tiles: Seq<Seq<u8>>,
)
    requires
        encoder_run(enc, h, end, tiles),
    ensures
        h.offered().is_prefix_of(stream_parts(enc.info, enc.config, tiles)),
        end == Ok::<i32, TngFault>(0) ==> h.offered() == stream_parts(
            enc.info,
            enc.config,
            tiles,
        ),
{
    lemma_encoder_calls(enc, h, end, tiles);
    let head = enc.head_parts();
    let body = tiles_parts(tiles);
    let index = chunk_parts(CHUNK_TIDX@, index_data(tiles));
    let last = chunk_parts(CHUNK_IEND@, Seq::empty());
    let all = stream_parts(enc.info, enc.config, tiles);
    let none = Seq::<Seq<u8>>::empty();
    assert(all =~= head + (body + index + last));
    if let Ok(code) = end {
        if code == -2 {
            assert(h.offered() =~= seq![TNG_MAGIC@]);
        } else if code == -3 {
            let thdr = chunk_parts(CHUNK_THDR@, thdr_data(enc.config));
            lemma_stopped_prefix(
                seq![TNG_MAGIC@],
                h,
                CHUNK_IHDR@,
                ihdr_data(enc.info),
                thdr + (body + index + last),
            );
            assert(all =~= seq![TNG_MAGIC@] + chunk_parts(CHUNK_IHDR@, ihdr_data(enc.info)) + (thdr
                + (body + index + last)));
        } else if code == -4 {
            lemma_stopped_prefix(
                seq![TNG_MAGIC@] + chunk_parts(CHUNK_IHDR@, ihdr_data(enc.info)),
                h,
                CHUNK_THDR@,
                thdr_data(enc.config),
                body + index + last,
            );
        } else if code == -5 {
            assert(h.offered() =~= head + body);
        } else if code == -6 {
            let earlier = tiles_parts(tiles.drop_last());
            lemma_stopped_prefix(head + earlier, h, CHUNK_TDAT@, tiles.last(), index + last);
            assert(all =~= head + earlier + chunk_parts(CHUNK_TDAT@, tiles.last()) + (index
                + last));
        } else if code == -7 {
            lemma_stopped_prefix(head + body + none, h, CHUNK_TIDX@, index_data(tiles), last);
            assert(head + body + none =~= head + body);
        } else if code == -8 {
            lemma_stopped_prefix(head + body + index, h, CHUNK_IEND@, Seq::empty(), none);
            assert(all + none =~= all);
        } else {
            assert(h.offered() =~= all);
        }
    } else {
        assert(h.offered() =~= h.writes());
    }
}

/// The rows that were written so far are those of the first rows of tiles.
spec fn rows_sized(layout: Layout, rows: Seq<Seq<u8>>) -> bool {
    forall|i: int|
        0 <= i < rows.len() ==> (#[trigger] rows[i]).len() == layout.config.height_of(i)
            * layout.stride
}

proof fn lemma_rows_sized(layout: Layout, state: Progress, input: Seq<u8>)
    requires
        state.rows.len() == state.ty,
        rows_sized(layout, state.rows),
    ensures
        rows_sized(layout, read_tiles(layout, state, input).rows),
    decreases input.len(),
{
    match split_chunk(input) {
        ChunkRead::Cut { part, wanted, rest } => {},
        ChunkRead::Whole { tag, data, rest } => {
            if tag == CHUNK_TDAT@ {
                match take_tile(layout, state, data) {
                    Step::Next(next) => {
                        lemma_rows_sized(layout, next, rest);
                    },
                    Step::Stop { rows, end } => {},
                }
            } else if tag != CHUNK_IEND@ {
                lemma_rows_sized(layout, state, rest);
            }
        },
    }
}

/// Every row of tiles is one piece of the output: the rows that a decoder writes are each as
/// high as their row of tiles and as wide as the image, in order.
pub proof fn one_piece_per_row(decoder: TngDecoder, input: Seq<u8>)
    ensures
        ({
            let (after, run) = decode(decoder, input);
            forall|i: int|
                0 <= i < run.rows.len() ==> {
                    &&& after.info matches Some(info)
                    &&& after.config matches Some(config)
                    &&& (#[trigger] run.rows[i]).len() == config.height_of(i) * (info.width
                        * after.bytes_per_pixel)
                }
        }),
{
    if input.len() >= 8 && input.take(8) == TNG_MAGIC@ {
        crate::decoder::lemma_headers_extend(decoder, input.skip(8), Seq::empty());
        if let Headers::Read { decoder: seen, rest } = read_headers(decoder, input.skip(8)) {
            if let (Some(info), Some(config)) = (seen.info, seen.config) {
                if let Some(layout) = layout_of(info, config, seen.bytes_per_pixel) {
                    lemma_rows_sized(layout, no_tiles_yet(layout), rest);
                }
            }
        }
    }
}

/// What came before the last tile is what the bytes give without it; a row that it completes
/// comes next.
proof fn lemma_last_row(layout: Layout, start: Progress, input: Seq<u8>)
    requires
        last_tile(layout, start, input) is Some,
    ensures
        ({
            let (state, payload) = last_tile(layout, start, input)->0;
            let rows = read_tiles(layout, start, input).rows;
            &&& state.rows.is_prefix_of(rows)
            &&& completed_row(layout, state, payload) matches Some(row) ==> rows
                == state.rows.push(row)
        }),
    decreases input.len(),
{
    match split_chunk(input) {
        ChunkRead::Cut { part, wanted, rest } => {},
        ChunkRead::Whole { tag, data, rest } => {
            if tag == CHUNK_TDAT@ {
                if let Step::Next(next) = take_tile(layout, start, data) {
                    if rest.len() == 0 {
                        assert(split_chunk(rest) is Cut);
                    } else {
                        lemma_last_row(layout, next, rest);
                    }
                }
            } else if tag != CHUNK_IEND@ {
                lemma_last_row(layout, start, rest);
            }
        },
    }
}

/// Every row of tiles is written by one call: the data that a run of the decoder offers are the
/// rows that its input gives, in order, and all of them unless the run ends with code -12 for
/// want of memory.
///
/// A run over more than 2^64 - 2 bytes is left out.
pub proof fn one_write_per_row(
    decoder: TngDecoder,
    h: History,
    end: Result<i32, TngFault>,
)
    requires
        decoder_run(
            decode(decoder, h.got()).1,
            decode_last_tile(decoder, h.got()),
            h,
            end,
        ),
        end != Err::<i32, TngFault>(TngFault::Endless),
    ensures
        h.offered().is_prefix_of(decode(decoder, h.got()).1.rows),
        h.offered() == decode(decoder, h.got()).1.rows || {
            &&& end == Ok::<i32, TngFault>(-12i32)
            &&& decode_last_tile(decoder, h.got()) matches Some((layout, state, payload))
            &&& memory_may_end(layout, state, payload)
        },
{
    let input = h.got();
    lemma_calls_in_order(h);
    if let Some((layout, state, payload)) = decode_last_tile(decoder, input) {
        if let Headers::Read { decoder: seen, rest } = read_headers(decoder, input.skip(8)) {
            lemma_last_row(layout, no_tiles_yet(layout), rest);
        }
    }
    if h.refused().len() == 0 {
        assert(h.offered() =~= h.writes());
    } else {
        assert(h.offered() =~= h.writes().push(h.refused()[0]));
    }
}

/// Every part of a stream is read by one call: the sizes that a run of the decoder asks for are
/// those of the signature and of the parts of the chunks, in order, and then, where the input
/// ends early, the size of the read that it does not fill.
///
/// A run over more than 2^64 - 2 bytes is left out.
pub proof fn one_read_per_part(decoder: TngDecoder, h: History, end: Result<i32, TngFault>)
    requires
        h.reads() == stream_cuts(h.got()),
        decoder_run(
            decode(decoder, h.got()).1,
            decode_last_tile(decoder, h.got()),
            h,
            end,
        ),
        end != Err::<i32, TngFault>(TngFault::Endless),
    ensures
        h.asked() == lengths(stream_cuts(h.got())) + h.short(),
        h.short().len() > 0 ==> h.short() == failed_reads(decode(decoder, h.got()).1),
{
    lemma_calls_in_order(h);
}

/// Tiles that were made have payloads of at least two bytes, and so four parts each.
proof fn lemma_four_parts_each(enc: TngEncoder, pixels: Seq<u8>, tiles: Seq<Seq<u8>>)
    requires
        enc.tiles_made(pixels, tiles),
    ensures
        tiles_parts(tiles).len() == 4 * tiles.len(),
    decreases tiles.len(),
{
    if tiles.len() > 0 {
        let fewer = tiles.drop_last();
        let per_band = enc.config.num_tiles_x as int;
        assert forall|k: int| 0 <= k < fewer.len() implies enc.tile_made(
            enc.band(pixels, k / per_band),
            k / per_band,
            k % per_band,
            #[trigger] fewer[k],
        ) by {
            assert(fewer[k] == tiles[k]);
        }
        lemma_four_parts_each(enc, pixels, fewer);
        let k = tiles.len() - 1;
        assert(enc.tile_made(
            enc.band(pixels, k / per_band),
            k / per_band,
            k % per_band,
            tiles[k],
        ));
        assert(tiles.last().len() >= 2);
    }
}

proof fn lemma_stopped_count(before: Seq<Seq<u8>>, h: History, tag: Seq<u8>, data: Seq<u8>)
    requires
        stopped_in_chunk(before, h, tag, data),
        h.offered() == h.writes() + h.refused(),
    ensures
        h.refused().len() == 1,
        before.len() < h.offered().len() <= before.len() + (if data.len() > 0 {
            4int
        } else {
            3
        }),
{
}

/// The code of a run of the encoder tells where it ended. Where a write was refused, its number
/// among all writes decides: the signature is the first, the image header takes the next four,
/// and the tile grid header the next four; then come four for every tile, those of the tile
/// index and three for the end chunk. Where a read failed the code is -5, and where none did it
/// is 0.
pub proof fn encoder_code_tells_where_it_ended(
    enc: TngEncoder,
    h: History,
    code: i32,
    tiles: Seq<Seq<u8>>,
)
    requires
        encoder_run(enc, h, Ok(code), tiles),
    ensures
        ({
            let writes = h.offered().len() as int;
            let all = 4 * (enc.config.num_tiles_y * enc.config.num_tiles_x);
            let index = if enc.config.num_tiles_y * enc.config.num_tiles_x > 0 {
                4int
            } else {
                3
            };
            &&& h.short().len() > 0 <==> code == -5
            &&& h.refused().len() > 0 <==> code != 0 && code != -5
            &&& h.refused().len() > 0 ==> {
                &&& code == -2 <==> writes == 1
                &&& code == -3 <==> 2 <= writes <= 5
                &&& code == -4 <==> 6 <= writes <= 9
                &&& code == -6 <==> 10 <= writes <= 9 + all
                &&& code == -7 <==> 10 + all <= writes <= 9 + all + index
                &&& code == -8 <==> 10 + all + index <= writes <= 12 + all + index
            }
            &&& code == 0 ==> writes == 12 + all + index
        }),
{
    lemma_encoder_calls(enc, h, Ok(code), tiles);
    let head = enc.head_parts();
    assert(head.len() == 9);
    let n = enc.config.num_tiles_x as int;
    let rows = enc.config.num_tiles_y as int;
    assert(rows * n >= 0) by (nonlinear_arith)
        requires
            rows >= 0,
            n >= 0,
    ;
    if code == -3 {
        lemma_stopped_count(seq![TNG_MAGIC@], h, CHUNK_IHDR@, ihdr_data(enc.info));
    } else if code == -4 {
        lemma_stopped_count(
            seq![TNG_MAGIC@] + chunk_parts(CHUNK_IHDR@, ihdr_data(enc.info)),
            h,
            CHUNK_THDR@,
            thdr_data(enc.config),
        );
    } else if code == -6 {
        let ty = choose|ty: int| #[trigger] enc.stopped_in_tile(h, tiles, ty);
        let fewer = tiles.drop_last();
        lemma_four_parts_each(enc, h.got(), tiles);
        lemma_stopped_count(head + tiles_parts(fewer), h, CHUNK_TDAT@, tiles.last());
        assert(tiles_parts(tiles) == tiles_parts(fewer) + chunk_parts(CHUNK_TDAT@, tiles.last()));
        assert((ty + 1) * n <= rows * n) by (nonlinear_arith)
            requires
                ty + 1 <= rows,
                n >= 0,
        ;
        lemma_last_has_four(enc, h.got(), tiles);
    } else if code == -7 || code == -8 || code == 0 {
        lemma_four_parts_each(enc, h.got(), tiles);
        crate::placement::index_tells_the_sizes(tiles);
        let index = chunk_parts(CHUNK_TIDX@, index_data(tiles));
        if code == -7 {
            lemma_stopped_count(
                head + tiles_parts(tiles) + Seq::empty(),
                h,
                CHUNK_TIDX@,
                index_data(tiles),
            );
        } else if code == -8 {
            lemma_stopped_count(
                head + tiles_parts(tiles) + index,
                h,
                CHUNK_IEND@,
                Seq::empty(),
            );
        }
    }
}

proof fn lemma_last_has_four(enc: TngEncoder, pixels: Seq<u8>, tiles: Seq<Seq<u8>>)
    requires
        enc.tiles_made(pixels, tiles),
        tiles.len() > 0,
    ensures
        chunk_parts(CHUNK_TDAT@, tiles.last()).len() == 4,
{
    let per_band = enc.config.num_tiles_x as int;
    let k = tiles.len() - 1;
    assert(enc.tile_made(enc.band(pixels, k / per_band), k / per_band, k % per_band, tiles[k]));
}

/// The code of a run of the decoder follows from the bytes that it read: a run in which no row
/// was refused ends as they say, unless memory ran out at a tile whose compressor is zstd (16)
/// or xz (18), which ends it with code -12. A run ends with code -13 exactly where a row was
/// refused.
///
/// A run over more than 2^64 - 2 bytes is left out.
pub proof fn decoder_code_follows_from_the_bytes(
    decoder: TngDecoder,
    h: History,
    end: Result<i32, TngFault>,
)
    requires
        decoder_run(
            decode(decoder, h.got()).1,
            decode_last_tile(decoder, h.got()),
            h,
            end,
        ),
        h.got().len() < u64::MAX,
    ensures
        h.refused().len() > 0 <==> end == Ok::<i32, TngFault>(-13i32),
        h.refused().len() == 0 ==> end == decode(decoder, h.got()).1.end || {
            &&& end == Ok::<i32, TngFault>(-12i32)
            &&& decode_last_tile(decoder, h.got()) matches Some((layout, state, payload))
            &&& memory_may_end(layout, state, payload)
        },
        h.refused().len() == 0 && end != Ok::<i32, TngFault>(-12i32) ==> h.writes() == decode(
            decoder,
            h.got(),
        ).1.rows,
{
    crate::decoder::codes_have_causes(decoder, h.got());
}

/// Memory can end a run only at a tile whose compressor is zstd (16) or xz (18), among the tiles
/// that wait, where all tiles before it in the batch were read and laid into the row.
pub proof fn memory_ends_runs_at_zstd_and_xz(layout: Layout, state: Progress, payload: Seq<u8>)
    requires
        memory_may_end(layout, state, payload),
    ensures
        state.batch.len() == 3 || state.tx + 1 == layout.config.num_tiles_x,
        exists|i: int|
            {
                &&& 0 <= i <= state.batch.len()
                &&& (#[trigger] state.batch.push(payload)[i]).len() >= 2
                &&& state.batch.push(payload)[i][0] == 16 || state.batch.push(payload)[i][0] == 18
            },
{
    let tiles = state.batch.push(payload);
    let first = state.tx + 1 - tiles.len();
    let i = choose|i: int|
        0 <= i < tiles.len() && tiles[i].len() >= 2 && crate::tile::needs_native_memory(tiles[i][0])
            && #[trigger] crate::decoder::lay_tiles(
            layout,
            state.ty,
            first,
            tiles.take(i),
            state.row,
        ) is Row;
    assert(tiles[i].len() >= 2);
    assert(state.batch.push(payload)[i] == tiles[i]);
}

} // verus!
