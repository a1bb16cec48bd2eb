//! Reading a TNG stream.

use crate::bytes::{from_be32, read_be32, zeros};
use crate::channel::{
    joined, lemma_blank, lemma_reached, lemma_reached_itself, lemma_since, lemma_since_itself,
    lemma_since_joins, lemma_sink_reached, lemma_source_reached, lemma_source_writes_nothing,
    port_call, reached, sink_call, source_call, ByteSink, ByteSource, Channel, History,
};
use crate::chunk::{
    chunk_bytes, chunk_cuts, lemma_cuts_after_chunk, read_chunk, split_chunk, split_undoes_chunk,
    tag_is, Chunk, ChunkRead,
};
use crate::format::{
    bytes_per_pixel, lemma_pixel_bytes_bound, pixel_bytes, TngDecoder, TngFault, TngImageInfo,
    TngTileConfig, CHUNK_IEND, CHUNK_IHDR, CHUNK_TDAT, CHUNK_THDR, TNG_MAGIC,
};
use crate::region::{paste, paste_region};
use crate::tile::{
    decompress_tile_payload_inplace, needs_native_memory, tile_len, tile_pixels, FILTER_LIMIT,
};
use rayon::iter::{
    IndexedParallelIterator, IntoParallelIterator, IntoParallelRefMutIterator, ParallelIterator,
};
use vstd::prelude::*;

verus! {

/// How many tiles are decoded at a time.
pub const BATCH_TILES: usize = 4;

/// What a run over some bytes gives.
pub struct Decoded {
    /// The rows of tiles that are written, each by one call.
    pub rows: Seq<Seq<u8>>,
    /// The bytes that are not looked at.
    pub rest: Seq<u8>,
    /// Where the run ends because the bytes do, the size of the read that they do not fill.
    pub starved: Option<nat>,
    /// The status code, or the fault.
    pub end: Result<i32, TngFault>,
}

impl Decoded {
    /// The pixels that are written.
    pub open spec fn output(self) -> Seq<u8> {
        joined(self.rows)
    }
}

/// How the pixels of an image lie in memory.
#[derive(Clone, Copy)]
pub struct Layout {
    pub config: TngTileConfig,
    /// The bytes of a row of pixels.
    pub stride: usize,
    /// The bytes of a pixel.
    pub bpp: usize,
}

impl Layout {
    /// The bytes of a row of tiles that has its full height.
    pub open spec fn row_len(self) -> int {
        self.config.tile_height * self.stride
    }

    /// The bytes of a tile that has its full size.
    pub open spec fn room(self) -> int {
        tile_len(self.config.tile_width as int, self.config.tile_height as int, self.bpp as int)
    }

    /// Whether buffers for a row and for a tile can be had.
    pub open spec fn fits(self) -> bool {
        &&& self.row_len() <= isize::MAX
        &&& self.config.tile_width * self.config.tile_height <= usize::MAX
        &&& self.room() <= isize::MAX
    }

    /// Where tile `tx` starts in each row of pixels.
    pub open spec fn offset_of(self, tx: int) -> int {
        tx * self.config.tile_width * self.bpp
    }

    /// The bytes that tile `tx` has in each row of pixels.
    pub open spec fn run_of(self, tx: int) -> int {
        self.config.width_of(tx) * self.bpp
    }
}

/// The layout of an image, if its size can be handled.
pub open spec fn layout_of(info: TngImageInfo, config: TngTileConfig, bpp: usize) -> Option<
    Layout,
> {
    let layout = Layout { config, stride: (info.width * bpp) as usize, bpp };
    if info.width * bpp <= usize::MAX && layout.fits() {
        Some(layout)
    } else {
        None
    }
}

/// The image information in the data of an image header chunk.
pub open spec fn info_in(data: Seq<u8>) -> TngImageInfo {
    TngImageInfo {
        width: from_be32(data.subrange(0, 4)),
        height: from_be32(data.subrange(4, 8)),
        bit_depth: data[8],
        color_type: data[9],
    }
}

/// The tile grid in the data of a tile grid header chunk.
pub open spec fn config_in(data: Seq<u8>) -> TngTileConfig {
    TngTileConfig {
        num_tiles_x: from_be32(data.subrange(0, 4)),
        num_tiles_y: from_be32(data.subrange(4, 8)),
        tile_width: from_be32(data.subrange(8, 12)),
        tile_height: from_be32(data.subrange(12, 16)),
        edge_width: from_be32(data.subrange(16, 20)),
        edge_height: from_be32(data.subrange(20, 24)),
        threads: 1,
        compression_algo: 0,
        filter_algo: 0,
    }
}

/// What the chunks up to the tile grid header give.
pub enum Headers {
    /// The tile grid header was read.
    Read { decoder: TngDecoder, rest: Seq<u8> },
    /// The run ends here.
    Ended { decoder: TngDecoder, run: Decoded },
}

/// Reads chunks up to the tile grid header. Chunks of other types are skipped.
pub open spec fn read_headers(decoder: TngDecoder, input: Seq<u8>) -> Headers
    decreases input.len(),
{
    match split_chunk(input) {
        ChunkRead::Cut { part, wanted, rest } => Headers::Ended {
            decoder,
            run: Decoded {
                rows: Seq::empty(),
                rest,
                starved: Some(wanted),
                end: Ok((-2 - part) as i32),
            },
        },
        ChunkRead::Whole { tag, data, rest } => {
            let fault = Headers::Ended {
                decoder,
                run: Decoded {
                    rows: Seq::empty(),
                    rest,
                    starved: None,
                    end: Err(TngFault::Malformed),
                },
            };
            if tag == CHUNK_IHDR@ {
                if data.len() < 10 {
                    fault
                } else {
                    let info = info_in(data);
                    read_headers(
                        TngDecoder {
                            info: Some(info),
                            bytes_per_pixel: pixel_bytes(info.color_type, info.bit_depth) as usize,
                            ..decoder
                        },
                        rest,
                    )
                }
            } else if tag == CHUNK_THDR@ {
                if data.len() < 24 {
                    fault
                } else {
                    Headers::Read {
                        decoder: TngDecoder { config: Some(config_in(data)), ..decoder },
                        rest,
                    }
                }
            } else {
                read_headers(decoder, rest)
            }
        },
    }
}

/// A decoder among the tiles.
pub struct Progress {
    /// The next column and row.
    pub tx: int,
    pub ty: int,
    /// The tiles that wait to be decoded; they lie directly before the next column.
    pub batch: Seq<Seq<u8>>,
    /// The row of tiles as far as it is put together. What a row does not overwrite
    /// stays from the row before it.
    pub row: Seq<u8>,
    /// The rows of tiles that were written.
    pub rows: Seq<Seq<u8>>,
}

/// What laying tiles into a row gives.
pub enum Laid {
    Row(Seq<u8>),
    /// A tile cannot be read.
    BadTile,
    /// A tile has no place in the row, or not in the buffers.
    Misfit,
}

/// Puts the pixels of one tile into a row.
pub open spec fn place_tile(
    layout: Layout,
    ty: int,
    tx: int,
    pixels: Seq<u8>,
    row: Seq<u8>,
) -> Laid {
    let height = layout.config.height_of(ty);
    if height > 0 && (height - 1) * layout.stride + layout.offset_of(tx) + layout.run_of(tx)
        > row.len() {
        Laid::Misfit
    } else {
        Laid::Row(
            paste(
                row,
                pixels,
                layout.stride as int,
                layout.offset_of(tx),
                layout.run_of(tx),
                height as nat,
            ),
        )
    }
}

/// Puts one tile into a row.
pub open spec fn lay_tile(
    layout: Layout,
    ty: int,
    tx: int,
    payload: Seq<u8>,
    row: Seq<u8>,
) -> Laid {
    let width = layout.config.width_of(tx);
    let height = layout.config.height_of(ty);
    match tile_pixels(payload, width, height, layout.bpp as int) {
        None => Laid::BadTile,
        Some(pixels) => place_tile(layout, ty, tx, pixels, row),
    }
}

/// The bytes of the tile in column `tx` and row `ty`.
pub open spec fn len_at(layout: Layout, ty: int, tx: int) -> int {
    tile_len(layout.config.width_of(tx), layout.config.height_of(ty), layout.bpp as int)
}

/// Puts tiles that were decoded into a row, one after the other, from column `first` on:
/// `reads` says which of them could be read, and the pixels of a tile stand at the start of
/// its buffer.
pub open spec fn lay_reads(
    layout: Layout,
    ty: int,
    first: int,
    reads: Seq<bool>,
    buffers: Seq<Vec<u8>>,
    row: Seq<u8>,
) -> Laid
    decreases reads.len(),
{
    if reads.len() == 0 {
        Laid::Row(row)
    } else {
        let last = reads.len() - 1;
        match lay_reads(layout, ty, first, reads.drop_last(), buffers, row) {
            Laid::Row(so_far) => if reads[last] {
                let tx = first + last;
                place_tile(layout, ty, tx, buffers[last]@.take(len_at(layout, ty, tx)), so_far)
            } else {
                Laid::BadTile
            },
            stopped => stopped,
        }
    }
}

/// Puts tiles into a row, one after the other, from column `first` on.
pub open spec fn lay_tiles(
    layout: Layout,
    ty: int,
    first: int,
    tiles: Seq<Seq<u8>>,
    row: Seq<u8>,
) -> Laid
    decreases tiles.len(),
{
    if tiles.len() == 0 {
        Laid::Row(row)
    } else {
        match lay_tiles(layout, ty, first, tiles.drop_last(), row) {
            Laid::Row(so_far) => lay_tile(
                layout,
                ty,
                first + tiles.len() - 1,
                tiles.last(),
                so_far,
            ),
            stopped => stopped,
        }
    }
}

/// Whether a tile is too large for the decoding buffers.
pub open spec fn oversized(layout: Layout, ty: int, tx: int, payload: Seq<u8>) -> bool {
    let width = layout.config.width_of(tx);
    let height = layout.config.height_of(ty);
    payload.len() >= 2 && {
        ||| width * height > usize::MAX
        ||| tile_len(width, height, layout.bpp as int) > layout.room()
        ||| payload[1] < FILTER_LIMIT && width * layout.bpp > usize::MAX
    }
}

/// Whether the buffers hold every tile of a batch.
pub open spec fn batch_fits(layout: Layout, ty: int, first: int, tiles: Seq<Seq<u8>>) -> bool {
    &&& layout.config.num_tiles_x > 0
    &&& layout.config.num_tiles_y > 0
    &&& forall|i: int|
        0 <= i < tiles.len() ==> !oversized(layout, ty, first + i, #[trigger] tiles[i])
}

/// Decodes a batch and puts it into a row.
pub open spec fn lay_batch(
    layout: Layout,
    ty: int,
    first: int,
    tiles: Seq<Seq<u8>>,
    row: Seq<u8>,
) -> Laid {
    if batch_fits(layout, ty, first, tiles) {
        lay_tiles(layout, ty, first, tiles, row)
    } else {
        Laid::Misfit
    }
}

/// Whether decoding a batch may fail for want of memory, at a tile that comes before
/// any other reason to stop.
pub open spec fn may_run_out(
    layout: Layout,
    ty: int,
    first: int,
    tiles: Seq<Seq<u8>>,
    row: Seq<u8>,
) -> bool {
    &&& batch_fits(layout, ty, first, tiles)
    &&& exists|i: int|
        0 <= i < tiles.len() && tiles[i].len() >= 2 && needs_native_memory(tiles[i][0])
            && #[trigger] lay_tiles(layout, ty, first, tiles.take(i), row) is Row
}

/// What one more tile gives.
pub enum Step {
    Next(Progress),
    Stop { rows: Seq<Seq<u8>>, end: Result<i32, TngFault> },
}

/// Whether a tile makes its batch due: the batch is full, or its row is.
pub open spec fn batch_due(layout: Layout, state: Progress) -> bool {
    state.batch.len() + 1 == BATCH_TILES || state.tx + 1 == layout.config.num_tiles_x
}

/// Takes in one tile. A full batch is decoded, and a full row is written.
pub open spec fn take_tile(layout: Layout, state: Progress, payload: Seq<u8>) -> Step {
    let tiles = state.batch.push(payload);
    let tx = state.tx + 1;
    if !batch_due(layout, state) {
        Step::Next(Progress { tx, batch: tiles, ..state })
    } else {
        match lay_batch(layout, state.ty, tx - tiles.len(), tiles, state.row) {
            Laid::Misfit => Step::Stop { rows: state.rows, end: Err(TngFault::Malformed) },
            Laid::BadTile => Step::Stop { rows: state.rows, end: Ok(-12i32) },
            Laid::Row(row) => {
                let len = layout.config.height_of(state.ty) * layout.stride;
                if tx != layout.config.num_tiles_x {
                    Step::Next(Progress { tx, batch: Seq::empty(), row, ..state })
                } else if len > row.len() {
                    Step::Stop { rows: state.rows, end: Err(TngFault::Malformed) }
                } else {
                    let rows = state.rows.push(row.take(len));
                    if state.ty == u32::MAX {
                        Step::Stop { rows, end: Err(TngFault::Malformed) }
                    } else {
                        Step::Next(
                            Progress {
                                tx: 0,
                                ty: state.ty + 1,
                                batch: Seq::empty(),
                                row,
                                rows,
                            },
                        )
                    }
                }
            },
        }
    }
}

/// Reads the chunks after the headers. The end chunk ends the run, and so does the end
/// of the bytes; chunks that hold no tile are skipped.
pub open spec fn read_tiles(
    layout: Layout,
    state: Progress,
    input: Seq<u8>,
) -> Decoded
    decreases input.len(),
{
    match split_chunk(input) {
        ChunkRead::Cut { part, wanted, rest } => Decoded {
            rows: state.rows,
            rest,
            starved: Some(wanted),
            end: Ok(0i32),
        },
        ChunkRead::Whole { tag, data, rest } => {
            if tag == CHUNK_TDAT@ {
                match take_tile(layout, state, data) {
                    Step::Next(next) => read_tiles(layout, next, rest),
                    Step::Stop { rows, end } => Decoded {
                        rows,
                        rest,
                        starved: None,
                        end,
                    },
                }
            } else if tag == CHUNK_IEND@ {
                Decoded { rows: state.rows, rest, starved: None, end: Ok(0i32) }
            } else {
                read_tiles(layout, state, rest)
            }
        },
    }
}

/// The row that a tile completes, if it does.
pub open spec fn completed_row(layout: Layout, state: Progress, payload: Seq<u8>) -> Option<
    Seq<u8>,
> {
    let tiles = state.batch.push(payload);
    let tx = state.tx + 1;
    let len = layout.config.height_of(state.ty) * layout.stride;
    if tx != layout.config.num_tiles_x {
        None
    } else {
        match lay_batch(layout, state.ty, tx - tiles.len(), tiles, state.row) {
            Laid::Row(row) => if len > row.len() {
                None
            } else {
                Some(row.take(len))
            },
            _ => None,
        }
    }
}

/// Whether memory may run out when a tile is taken in.
pub open spec fn memory_may_end(layout: Layout, state: Progress, payload: Seq<u8>) -> bool {
    let tiles = state.batch.push(payload);
    batch_due(layout, state) && may_run_out(
        layout,
        state.ty,
        state.tx + 1 - tiles.len(),
        tiles,
        state.row,
    )
}

/// The last tile of the input and the decoder before it, if the input ends with a tile that
/// is taken in.
pub open spec fn last_tile(layout: Layout, state: Progress, input: Seq<u8>) -> Option<
    (Progress, Seq<u8>),
>
    decreases input.len(),
{
    match split_chunk(input) {
        ChunkRead::Cut { part, wanted, rest } => None,
        ChunkRead::Whole { tag, data, rest } => {
            if tag == CHUNK_TDAT@ {
                if rest.len() == 0 {
                    Some((state, data))
                } else {
                    match take_tile(layout, state, data) {
                        Step::Next(next) => last_tile(layout, next, rest),
                        Step::Stop { rows, end } => None,
                    }
                }
            } else if tag == CHUNK_IEND@ {
                None
            } else {
                last_tile(layout, state, rest)
            }
        },
    }
}

/// A decoder that has read the headers and no tile.
pub open spec fn no_tiles_yet(layout: Layout) -> Progress {
    Progress {
        tx: 0,
        ty: 0,
        batch: Seq::empty(),
        row: Seq::new(layout.row_len() as nat, |i: int| 0u8),
        rows: Seq::empty(),
    }
}

/// A run that stops before the tiles.
pub open spec fn stopped(
    rest: Seq<u8>,
    starved: Option<nat>,
    end: Result<i32, TngFault>,
) -> Decoded {
    Decoded { rows: Seq::empty(), rest, starved, end }
}

/// What the chunks of a stream give: the decoder after them, and what is decoded.
pub open spec fn decode_chunks(decoder: TngDecoder, input: Seq<u8>) -> (TngDecoder, Decoded) {
    match read_headers(decoder, input) {
        Headers::Ended { decoder, run } => (decoder, run),
        Headers::Read { decoder, rest } => (
            decoder,
            match (decoder.info, decoder.config) {
                (None, _) => stopped(rest, None, Ok(-9i32)),
                (_, None) => stopped(rest, None, Ok(-10i32)),
                (Some(info), Some(config)) => {
                    match layout_of(info, config, decoder.bytes_per_pixel) {
                        None => stopped(rest, None, Err(TngFault::Malformed)),
                        Some(layout) => read_tiles(layout, no_tiles_yet(layout), rest),
                    }
                },
            },
        ),
    }
}

/// A run over some bytes: the decoder after it, and what it gives.
pub open spec fn decode(decoder: TngDecoder, input: Seq<u8>) -> (TngDecoder, Decoded) {
    if input.len() < 8 {
        (decoder, stopped(input, Some(8), Ok(-2i32)))
    } else if input.take(8) != TNG_MAGIC@ {
        (decoder, stopped(input.skip(8), None, Ok(-2i32)))
    } else {
        decode_chunks(decoder, input.skip(8))
    }
}

/// A run keeps the bytes of a pixel in step with the image information.
pub proof fn decode_keeps_wf(decoder: TngDecoder, input: Seq<u8>)
    requires
        decoder.wf(),
    ensures
        decode(decoder, input).0.wf(),
{
    lemma_headers_keep_wf(decoder, input.skip(8));
}

proof fn lemma_headers_keep_wf(decoder: TngDecoder, input: Seq<u8>)
    requires
        decoder.wf(),
    ensures
        match read_headers(decoder, input) {
            Headers::Read { decoder, rest } => decoder.wf(),
            Headers::Ended { decoder, run } => decoder.wf(),
        },
    decreases input.len(),
{
    match split_chunk(input) {
        ChunkRead::Cut { part, wanted, rest } => {},
        ChunkRead::Whole { tag, data, rest } => {
            if tag == CHUNK_IHDR@ {
                if data.len() >= 10 {
                    let info = info_in(data);
                    let seen = TngDecoder {
                        info: Some(info),
                        bytes_per_pixel: pixel_bytes(info.color_type, info.bit_depth) as usize,
                        ..decoder
                    };
                    lemma_pixel_bytes_bound(info.color_type, info.bit_depth);
                    lemma_headers_keep_wf(seen, rest);
                }
            } else if tag != CHUNK_THDR@ {
                lemma_headers_keep_wf(decoder, rest);
            }
        },
    }
}

proof fn lemma_header_codes(decoder: TngDecoder, input: Seq<u8>)
    ensures
        match read_headers(decoder, input) {
            Headers::Read { decoder, rest } => decoder.config is Some,
            Headers::Ended { decoder, run } => {
                &&& run.rows.len() == 0
                &&& match run.end {
                    Ok(code) => {
                        &&& -6 <= code <= -3
                        &&& run.starved is Some
                        &&& code != -5 ==> run.starved == Some(4nat)
                    },
                    Err(fault) => fault == TngFault::Malformed,
                }
            },
        },
    decreases input.len(),
{
    match split_chunk(input) {
        ChunkRead::Cut { part, wanted, rest } => {},
        ChunkRead::Whole { tag, data, rest } => {
            if tag == CHUNK_IHDR@ {
                if data.len() >= 10 {
                    let info = info_in(data);
                    let seen = TngDecoder {
                        info: Some(info),
                        bytes_per_pixel: pixel_bytes(info.color_type, info.bit_depth) as usize,
                        ..decoder
                    };
                    lemma_header_codes(seen, rest);
                }
            } else if tag != CHUNK_THDR@ {
                lemma_header_codes(decoder, rest);
            }
        },
    }
}

proof fn lemma_tile_codes(layout: Layout, state: Progress, input: Seq<u8>)
    ensures
        match read_tiles(layout, state, input).end {
            Ok(code) => code == 0 || code == -12,
            Err(fault) => fault == TngFault::Malformed,
        },
    decreases input.len(),
{
    match split_chunk(input) {
        ChunkRead::Cut { part, wanted, rest } => {},
        ChunkRead::Whole { tag, data, rest } => {
            if tag == CHUNK_TDAT@ {
                if let Step::Next(next) = take_tile(layout, state, data) {
                    lemma_tile_codes(layout, next, rest);
                }
            } else if tag != CHUNK_IEND@ {
                lemma_tile_codes(layout, state, rest);
            }
        },
    }
}

/// Each code has its cause: -2 comes exactly where the signature is missing, -3 to -6 where
/// the bytes end within the headers (-3, -4 and -6 in a part of four bytes), -9 where the
/// tile grid comes before any image information, and -12 and 0 after the headers. Only after
/// the headers is anything written.
pub proof fn codes_have_causes(decoder: TngDecoder, input: Seq<u8>)
    ensures
        ({
            let signed = input.len() >= 8 && input.take(8) == TNG_MAGIC@;
            let (after, run) = decode(decoder, input);
            match run.end {
                Ok(code) => {
                    &&& code == -2 <==> !signed
                    &&& -6 <= code <= -3 <==> signed && read_headers(decoder, input.skip(8))
                        is Ended
                    &&& code == -3 || code == -4 || code == -6 ==> run.starved == Some(4nat)
                    &&& code == -9 <==> signed && read_headers(decoder, input.skip(8)) is Read
                        && after.info is None
                    &&& code == 0 || code == -2 || -6 <= code <= -3 || code == -9 || code == -12
                    &&& code != 0 && code != -12 ==> run.rows.len() == 0
                },
                Err(fault) => fault == TngFault::Malformed,
            }
        }),
{
    lemma_header_codes(decoder, input.skip(8));
    if let Headers::Read { decoder: seen, rest } = read_headers(decoder, input.skip(8)) {
        match (seen.info, seen.config) {
            (Some(info), Some(config)) => {
                if let Some(layout) = layout_of(info, config, seen.bytes_per_pixel) {
                    lemma_tile_codes(layout, no_tiles_yet(layout), rest);
                }
            },
            _ => {},
        }
    }
}

/// A chunk of an unknown type among the headers changes nothing.
pub proof fn unknown_header_chunk_is_skipped(
    decoder: TngDecoder,
    tag: Seq<u8>,
    data: Seq<u8>,
    rest: Seq<u8>,
)
    requires
        tag.len() == 4,
        tag != CHUNK_IHDR@,
        tag != CHUNK_THDR@,
        data.len() <= u32::MAX,
    ensures
        read_headers(decoder, chunk_bytes(tag, data) + rest) == read_headers(decoder, rest),
{
    split_undoes_chunk(tag, data, rest);
}

/// A chunk of an unknown type among the tiles changes nothing.
pub proof fn unknown_tile_chunk_is_skipped(
    layout: Layout,
    state: Progress,
    tag: Seq<u8>,
    data: Seq<u8>,
    rest: Seq<u8>,
)
    requires
        tag.len() == 4,
        tag != CHUNK_TDAT@,
        tag != CHUNK_IEND@,
        data.len() <= u32::MAX,
    ensures
        read_tiles(layout, state, chunk_bytes(tag, data) + rest) == read_tiles(
            layout,
            state,
            rest,
        ),
{
    split_undoes_chunk(tag, data, rest);
}

/// What a run gives where more bytes follow.
pub open spec fn extends(run: Decoded, longer: Decoded, more: Seq<u8>) -> bool {
    if run.starved is Some {
        run.rows.is_prefix_of(longer.rows)
    } else {
        longer == Decoded { rest: run.rest + more, ..run }
    }
}

proof fn lemma_tiles_extend(layout: Layout, state: Progress, input: Seq<u8>, more: Seq<u8>)
    ensures
        extends(
            read_tiles(layout, state, input),
            read_tiles(layout, state, input + more),
            more,
        ),
    decreases input.len(),
{
    match split_chunk(input) {
        ChunkRead::Cut { part, wanted, rest } => {
            lemma_rows_grow(layout, state, input + more);
        },
        ChunkRead::Whole { tag, data, rest } => {
            crate::chunk::lemma_split_chunk_extends(input, more);
            if tag == CHUNK_TDAT@ {
                if let Step::Next(next) = take_tile(layout, state, data) {
                    lemma_tiles_extend(layout, next, rest, more);
                }
            } else if tag != CHUNK_IEND@ {
                lemma_tiles_extend(layout, state, rest, more);
            }
        },
    }
}

/// What was written stays written.
proof fn lemma_rows_grow(layout: Layout, state: Progress, input: Seq<u8>)
    ensures
        state.rows.is_prefix_of(read_tiles(layout, state, input).rows),
    decreases input.len(),
{
    match split_chunk(input) {
        ChunkRead::Cut { part, wanted, rest } => {},
        ChunkRead::Whole { tag, data, rest } => {
            if tag == CHUNK_TDAT@ {
                if let Step::Next(next) = take_tile(layout, state, data) {
                    lemma_rows_grow(layout, next, rest);
                }
            } else if tag != CHUNK_IEND@ {
                lemma_rows_grow(layout, state, rest);
            }
        },
    }
}

/// More bytes after the headers do not change how they are read.
pub proof fn lemma_headers_extend(decoder: TngDecoder, input: Seq<u8>, more: Seq<u8>)
    ensures
        match read_headers(decoder, input) {
            Headers::Read { decoder: seen, rest } => read_headers(decoder, input + more) == (
            Headers::Read { decoder: seen, rest: rest + more }),
            Headers::Ended { decoder: seen, run } => run.rows.len() == 0 && (run.starved is None
                ==> read_headers(decoder, input + more) == (Headers::Ended {
                decoder: seen,
                run: Decoded { rest: run.rest + more, ..run },
            })),
        },
    decreases input.len(),
{
    match split_chunk(input) {
        ChunkRead::Cut { part, wanted, rest } => {},
        ChunkRead::Whole { tag, data, rest } => {
            crate::chunk::lemma_split_chunk_extends(input, more);
            if tag == CHUNK_IHDR@ {
                if data.len() >= 10 {
                    let info = info_in(data);
                    let seen = TngDecoder {
                        info: Some(info),
                        bytes_per_pixel: pixel_bytes(info.color_type, info.bit_depth) as usize,
                        ..decoder
                    };
                    lemma_headers_extend(seen, rest, more);
                }
            } else if tag != CHUNK_THDR@ {
                lemma_headers_extend(decoder, rest, more);
            }
        },
    }
}

/// A stream that is cut short gives the start of what the whole stream gives, and bytes
/// after the end of a run change nothing: where a run does not end for want of bytes, a run
/// over more bytes gives the same and leaves the additional bytes over.
pub proof fn decode_extends(decoder: TngDecoder, input: Seq<u8>, more: Seq<u8>)
    ensures
        extends(decode(decoder, input).1, decode(decoder, input + more).1, more),
        decode(decoder, input).1.starved is None ==> decode(decoder, input + more).0 == decode(
            decoder,
            input,
        ).0,
{
    let whole = input + more;
    if input.len() >= 8 {
        assert(whole.take(8) =~= input.take(8));
        assert(whole.skip(8) =~= input.skip(8) + more);
        if input.take(8) == TNG_MAGIC@ {
            lemma_headers_extend(decoder, input.skip(8), more);
            if let Headers::Read { decoder: seen, rest } = read_headers(decoder, input.skip(8)) {
                match (seen.info, seen.config) {
                    (Some(info), Some(config)) => {
                        if let Some(layout) = layout_of(info, config, seen.bytes_per_pixel) {
                            lemma_tiles_extend(layout, no_tiles_yet(layout), rest, more);
                        }
                    },
                    _ => {},
                }
            }
        }
    }
}

/// The last tile of the input, with the layout of the image and the decoder before it, if the
/// input ends with a tile that is taken in.
pub open spec fn decode_last_tile(decoder: TngDecoder, input: Seq<u8>) -> Option<
    (Layout, Progress, Seq<u8>),
> {
    if input.len() < 8 || input.take(8) != TNG_MAGIC@ {
        None
    } else {
        match read_headers(decoder, input.skip(8)) {
            Headers::Ended { decoder, run } => None,
            Headers::Read { decoder, rest } => {
                match (decoder.info, decoder.config) {
                    (Some(info), Some(config)) => {
                        match layout_of(info, config, decoder.bytes_per_pixel) {
                            None => None,
                            Some(layout) => match last_tile(layout, no_tiles_yet(layout), rest) {
                                Some((state, payload)) => Some((layout, state, payload)),
                                None => None,
                            },
                        }
                    },
                    _ => None,
                }
            },
        }
    }
}

/// Whether the calls of a run are those that the bytes that came in say: `full` is what they
/// give, and each of its rows was written by one call.
pub open spec fn undisturbed(full: Decoded, h: History, end: Result<i32, TngFault>) -> bool {
    &&& h.refused().len() == 0
    &&& h.short() == failed_reads(full)
    &&& full.starved is Some ==> h.fails_last()
    &&& full == Decoded { rows: h.writes(), rest: Seq::empty(), starved: full.starved, end }
}

/// What calls one run made. `full` is what the bytes that came in give, and
/// `last` the tile that they end with.
pub open spec fn decoder_run(
    full: Decoded,
    last: Option<(Layout, Progress, Seq<u8>)>,
    h: History,
    end: Result<i32, TngFault>,
) -> bool {
    ||| undisturbed(full, h, end)
    ||| {
        // The last tile completed a row, and the row was refused.
        &&& end matches Ok(code) && code == -13
        &&& h.short().len() == 0
        &&& h.fails_last()
        &&& last matches Some((layout, state, payload)) && h.writes() == state.rows && (
        completed_row(layout, state, payload) matches Some(row) && h.refused() == seq![row])
    }
    ||| {
        // The last tile could not be decoded for want of memory.
        &&& end matches Ok(code) && code == -12
        &&& h.clean()
        &&& last matches Some((layout, state, payload)) && h.writes() == state.rows
            && memory_may_end(layout, state, payload)
    }
    ||| {
        &&& end matches Err(fault) && fault == TngFault::Endless
        &&& h.got().len() >= u64::MAX
    }
}

/// The sizes of the reads that fail in a run.
pub open spec fn failed_reads(run: Decoded) -> Seq<nat> {
    match run.starved {
        Some(size) => seq![size],
        None => Seq::empty(),
    }
}

/// The parts of a stream as they are read one by one: its signature, and the parts of its
/// chunks. A part that is not there in full is left out.
pub open spec fn stream_cuts(input: Seq<u8>) -> Seq<Seq<u8>> {
    if input.len() < 8 {
        Seq::empty()
    } else {
        seq![input.take(8)] + chunk_cuts(input.skip(8))
    }
}

/// Whether `used` is chunks that were read as `reads`.
#[verifier::opaque]
spec fn cut_into(used: Seq<u8>, reads: Seq<Seq<u8>>) -> bool {
    forall|more: Seq<u8>| #[trigger] chunk_cuts(used + more) == reads + chunk_cuts(more)
}

/// Before the first chunk.
proof fn lemma_nothing_cut()
    ensures
        cut_into(Seq::empty(), Seq::empty()),
{
    reveal(cut_into);
    assert forall|more: Seq<u8>| #[trigger]
        chunk_cuts(Seq::<u8>::empty() + more) == Seq::<Seq<u8>>::empty() + chunk_cuts(more) by {
        assert(Seq::<u8>::empty() + more =~= more);
        assert(Seq::<Seq<u8>>::empty() + chunk_cuts(more) =~= chunk_cuts(more));
    }
}

/// No bytes, no parts.
proof fn lemma_no_cuts()
    ensures
        chunk_cuts(Seq::<u8>::empty()) == Seq::<Seq<u8>>::empty(),
{
    assert(chunk_cuts(Seq::<u8>::empty()) =~= Seq::empty());
}

/// What comes after whole chunks.
proof fn lemma_cut_on(used: Seq<u8>, reads: Seq<Seq<u8>>, bytes: Seq<u8>)
    requires
        cut_into(used, reads),
    ensures
        chunk_cuts(used + bytes) == reads + chunk_cuts(bytes),
        (split_chunk(bytes) matches ChunkRead::Whole { tag, data, rest } && rest.len() == 0)
            ==> cut_into(used + bytes, reads + chunk_cuts(bytes)),
{
    reveal(cut_into);
    if let ChunkRead::Whole { tag, data, rest } = split_chunk(bytes) {
        if rest.len() == 0 {
            assert forall|more: Seq<u8>| #[trigger]
                chunk_cuts(used + bytes + more) == reads + chunk_cuts(bytes) + chunk_cuts(
                    more,
                ) by {
                assert(used + bytes + more =~= used + (bytes + more));
                lemma_cuts_after_chunk(bytes, more);
                assert(reads + chunk_cuts(bytes) + chunk_cuts(more) =~= reads + (chunk_cuts(bytes)
                    + chunk_cuts(more)));
            }
        }
    }
}

/// The bytes that came in since some point.
spec fn received(before: History, after: History) -> Seq<u8> {
    after.since(before).got()
}

/// Starts the threads that decode tiles, through
/// `rayon::ThreadPoolBuilder::build_global`. Whether they can be had depends on the
/// machine and on what ran before, so nothing is claimed of the result. Where they cannot,
/// tiles are decoded one after the other.
#[verifier::external_body]
fn start_threads(threads: usize) -> (started: Result<(), rayon::ThreadPoolBuildError>) {
    rayon::ThreadPoolBuilder::new().num_threads(threads).build_global()
}

/// A tile that waits to be decoded.
pub struct TileJob {
    pub tx: u32,
    pub payload: Vec<u8>,
}

/// What decoding a tile into a buffer did.
pub open spec fn tile_done(
    layout: Layout,
    ty: int,
    tx: int,
    payload: Seq<u8>,
    before: Seq<u8>,
    after: Seq<u8>,
    read: bool,
) -> bool {
    let width = layout.config.width_of(tx);
    let height = layout.config.height_of(ty);
    let pixels = tile_pixels(payload, width, height, layout.bpp as int);
    &&& after.len() == before.len()
    &&& payload.len() < 2 ==> !read
    &&& payload.len() >= 2 && read ==> pixels == Some(
        after.take(tile_len(width, height, layout.bpp as int)),
    )
    &&& payload.len() >= 2 && !needs_native_memory(payload[0]) ==> (read <==> pixels is Some)
}

/// Decodes one tile into a buffer; tells whether it could be read.
pub fn decode_tile(layout: &Layout, ty: u32, job: &TileJob, out_buf: &mut Vec<u8>) -> (read: bool)
    requires
        layout.config.num_tiles_x > 0,
        layout.config.num_tiles_y > 0,
        !oversized(*layout, ty as int, job.tx as int, job.payload@),
        old(out_buf)@.len() == layout.room(),
    ensures
        tile_done(
            *layout,
            ty as int,
            job.tx as int,
            job.payload@,
            old(out_buf)@,
            final(out_buf)@,
            read,
        ),
{
    let current_tile_width: usize = layout.config.tile_width_at(job.tx);
    let current_tile_height: usize = layout.config.tile_height_at(ty);
    decompress_tile_payload_inplace(
        &job.payload,
        current_tile_width,
        current_tile_height,
        layout.bpp,
        out_buf.as_mut_slice(),
    ).is_ok()
}

/// What decoding tiles did: tile `i` was decoded into buffer `i`, with result `i`, and the
/// buffers left over stayed as they were.
pub open spec fn batch_done(
    layout: Layout,
    ty: int,
    jobs: Seq<TileJob>,
    before: Seq<Vec<u8>>,
    after: Seq<Vec<u8>>,
    reads: Seq<bool>,
) -> bool {
    &&& reads.len() == jobs.len()
    &&& after.len() == before.len()
    &&& forall|i: int|
        0 <= i < jobs.len() ==> tile_done(
            layout,
            ty,
            jobs[i].tx as int,
            jobs[i].payload@,
            before[i]@,
            (#[trigger] after[i])@,
            reads[i],
        )
    &&& forall|i: int|
        jobs.len() <= i < before.len() ==> (#[trigger] after[i])@ == before[i]@
}

/// Whether tiles can be decoded: there is a buffer of the right size for each, and none is
/// too large.
pub open spec fn batch_ready(
    layout: Layout,
    ty: int,
    jobs: Seq<TileJob>,
    buffers: Seq<Vec<u8>>,
) -> bool {
    &&& layout.config.num_tiles_x > 0
    &&& layout.config.num_tiles_y > 0
    &&& jobs.len() <= buffers.len()
    &&& forall|i: int|
        0 <= i < jobs.len() ==> !oversized(
            layout,
            ty,
            (#[trigger] jobs[i]).tx as int,
            jobs[i].payload@,
        )
    &&& forall|i: int| 0 <= i < buffers.len() ==> (#[trigger] buffers[i])@.len() == layout.room()
}

/// Decodes tiles on the threads of rayon's global pool, through rayon's parallel `zip`,
/// `map` and `collect`. Claimed: tile `i` goes through one call of `decode_tile` into buffer
/// `i`, result `i` is what that call returned, and the buffers left over stay as they are.
/// Rayon panics if it cannot start that pool, so this is called only after it was started.
#[verifier::external_body]
fn decode_tiles(layout: &Layout, ty: u32, jobs: Vec<TileJob>, buffers: &mut Vec<Vec<u8>>) -> (reads:
    Vec<bool>)
    requires
        batch_ready(*layout, ty as int, jobs@, old(buffers)@),
    ensures
        batch_done(*layout, ty as int, jobs@, old(buffers)@, final(buffers)@, reads@),
{
    jobs.into_par_iter().zip(buffers.par_iter_mut()).map(
        |(job, out_buf)| decode_tile(layout, ty, &job, out_buf),
    ).collect()
}

/// Decodes tiles one after the other.
fn decode_in_turn(
    layout: &Layout,
    ty: u32,
    jobs: &Vec<TileJob>,
    buffers: &mut Vec<Vec<u8>>,
) -> (reads: Vec<bool>)
    requires
        batch_ready(*layout, ty as int, jobs@, old(buffers)@),
    ensures
        batch_done(*layout, ty as int, jobs@, old(buffers)@, final(buffers)@, reads@),
{
    let ghost before = buffers@;
    let mut reads: Vec<bool> = Vec::new();
    let mut i: usize = 0;
    while i < jobs.len()
        invariant
            before == old(buffers)@,
            batch_ready(*layout, ty as int, jobs@, before),
            i <= jobs@.len(),
            reads@.len() == i,
            buffers@.len() == before.len(),
            forall|k: int|
                0 <= k < i ==> tile_done(
                    *layout,
                    ty as int,
                    jobs@[k].tx as int,
                    jobs@[k].payload@,
                    before[k]@,
                    (#[trigger] buffers@[k])@,
                    reads@[k],
                ),
            forall|k: int| i <= k < before.len() ==> #[trigger] buffers@[k] == before[k],
        decreases jobs@.len() - i,
    {
        assert(!oversized(*layout, ty as int, jobs@[i as int].tx as int, jobs@[i as int].payload@));
        assert(before[i as int]@.len() == layout.room());
        let read: bool = decode_tile(layout, ty, &jobs[i], &mut buffers[i]);
        reads.push(read);
        i += 1;
    }
    reads
}

impl Layout {
    /// The bytes of a tile that has its full size.
    fn room_bytes(&self) -> (room: usize)
        requires
            self.fits(),
        ensures
            room == self.room(),
    {
        self.config.tile_width as usize * self.config.tile_height as usize * self.bpp
    }

    /// Where tile `tx` starts in each row of pixels, if all its `height` rows end
    /// within `len` bytes.
    fn place(&self, tx: u32, height: usize, run: usize, len: usize) -> (offset: Option<usize>)
        requires
            1 <= height <= u32::MAX,
        ensures
            match offset {
                Some(offset) => offset == self.offset_of(tx as int) && (height - 1) * self.stride
                    + offset + run <= len,
                None => (height - 1) * self.stride + self.offset_of(tx as int) + run > len,
            },
    {
        let ghost columns = tx * self.config.tile_width;
        proof {
            assert(0 <= columns) by (nonlinear_arith)
                requires
                    columns == tx * self.config.tile_width,
            ;
            assert(0 <= (height - 1) * self.stride <= 0xffff_ffff * 0xffff_ffff_ffff_ffff)
                by (nonlinear_arith)
                requires
                    1 <= height <= 0xffff_ffff,
                    0 <= self.stride <= 0xffff_ffff_ffff_ffff,
            ;
        }
        let offset: usize = if self.bpp == 0 {
            assert(columns * self.bpp == 0) by (nonlinear_arith)
                requires
                    self.bpp == 0,
            ;
            0
        } else {
            let columns: usize = match (tx as usize).checked_mul(self.config.tile_width as usize) {
                Some(columns) => columns,
                None => {
                    assert(columns * self.bpp >= columns) by (nonlinear_arith)
                        requires
                            self.bpp >= 1,
                            columns >= 0,
                    ;
                    return None;
                },
            };
            match columns.checked_mul(self.bpp) {
                Some(offset) => offset,
                None => {
                    return None;
                },
            }
        };
        let end: u128 = (height - 1) as u128 * self.stride as u128 + offset as u128 + run as u128;
        if end > len as u128 {
            None
        } else {
            Some(offset)
        }
    }
}

/// Tells whether a tile is too large for the decoding buffers.
fn is_oversized(layout: &Layout, ty: u32, job: &TileJob) -> (over: bool)
    requires
        layout.fits(),
        layout.config.num_tiles_x > 0,
        layout.config.num_tiles_y > 0,
    ensures
        over == oversized(*layout, ty as int, job.tx as int, job.payload@),
{
    if job.payload.len() < 2 {
        return false;
    }
    let width: usize = layout.config.tile_width_at(job.tx);
    let height: usize = layout.config.tile_height_at(ty);
    let area: usize = match width.checked_mul(height) {
        Some(area) => area,
        None => {
            return true;
        },
    };
    match area.checked_mul(layout.bpp) {
        Some(len) => {
            if len > layout.room_bytes() {
                return true;
            }
        },
        None => {
            return true;
        },
    }
    job.payload[1] < FILTER_LIMIT && width.checked_mul(layout.bpp).is_none()
}

/// Tells whether the buffers hold every tile of a batch.
fn is_batch_fitting(layout: &Layout, ty: u32, first: u32, jobs: &Vec<TileJob>) -> (fitting: bool)
    requires
        layout.fits(),
        forall|i: int| 0 <= i < jobs@.len() ==> (#[trigger] jobs@[i]).tx == first + i,
    ensures
        fitting == batch_fits(*layout, ty as int, first as int, payloads_of(jobs@)),
{
    if layout.config.num_tiles_x == 0 || layout.config.num_tiles_y == 0 {
        return false;
    }
    let ghost tiles = payloads_of(jobs@);
    let mut i: usize = 0;
    while i < jobs.len()
        invariant
            layout.fits(),
            layout.config.num_tiles_x > 0,
            layout.config.num_tiles_y > 0,
            i <= jobs@.len(),
            tiles == payloads_of(jobs@),
            forall|i: int| 0 <= i < jobs@.len() ==> (#[trigger] jobs@[i]).tx == first + i,
            forall|k: int|
                0 <= k < i ==> !oversized(*layout, ty as int, first + k, #[trigger] tiles[k]),
        decreases jobs@.len() - i,
    {
        if is_oversized(layout, ty, &jobs[i]) {
            assert(oversized(*layout, ty as int, first + i, tiles[i as int]));
            return false;
        }
        i += 1;
    }
    true
}

/// The payloads of some tiles.
pub open spec fn payloads_of(jobs: Seq<TileJob>) -> Seq<Seq<u8>> {
    Seq::new(jobs.len(), |i: int| jobs[i].payload@)
}

/// How a batch ended.
pub enum Flush {
    Laid,
    BadTile,
    Misfit,
}

/// Puts tiles that were decoded into a row, from column `first` on. What is left in the row
/// where a tile stops it is not stated.
pub fn lay_read_tiles(
    layout: &Layout,
    ty: u32,
    first: u32,
    reads: &Vec<bool>,
    buffers: &Vec<Vec<u8>>,
    row: &mut Vec<u8>,
) -> (flush: Flush)
    requires
        layout.config.num_tiles_x > 0,
        layout.config.num_tiles_y > 0,
        reads@.len() <= buffers@.len(),
        first + reads@.len() <= u32::MAX,
        forall|i: int|
            0 <= i < reads@.len() && reads@[i] ==> len_at(*layout, ty as int, first + i)
                <= (#[trigger] buffers@[i])@.len(),
    ensures
        final(row)@.len() == old(row)@.len(),
        ({
            let laid = lay_reads(
                *layout,
                ty as int,
                first as int,
                reads@,
                buffers@,
                old(row)@,
            );
            match flush {
                Flush::Laid => laid == Laid::Row(final(row)@),
                Flush::Misfit => laid == Laid::Misfit,
                Flush::BadTile => laid == Laid::BadTile,
            }
        }),
{
    let ghost row0 = row@;
    let height: usize = layout.config.tile_height_at(ty);
    let mut idx: usize = 0;
    assert(reads@.take(0) =~= Seq::<bool>::empty());
    while idx < reads.len()
        invariant
            layout.config.num_tiles_x > 0,
            layout.config.num_tiles_y > 0,
            row0 == old(row)@,
            height == layout.config.height_of(ty as int),
            idx <= reads@.len() <= buffers@.len(),
            first + reads@.len() <= u32::MAX,
            row@.len() == row0.len(),
            lay_reads(
                *layout,
                ty as int,
                first as int,
                reads@.take(idx as int),
                buffers@,
                row0,
            ) == Laid::Row(row@),
            forall|i: int|
                0 <= i < reads@.len() && reads@[i] ==> len_at(*layout, ty as int, first + i)
                    <= (#[trigger] buffers@[i])@.len(),
        decreases reads@.len() - idx,
    {
        let tx: u32 = first + idx as u32;
        proof {
            assert(reads@.take(idx + 1).drop_last() =~= reads@.take(idx as int));
            assert(reads@.take(idx + 1)[idx as int] == reads@[idx as int]);
        }
        if !reads[idx] {
            proof {
                lemma_reads_stop(
                    *layout,
                    ty as int,
                    first as int,
                    reads@,
                    buffers@,
                    row0,
                    idx + 1,
                );
            }
            return Flush::BadTile;
        }
        if !put_tile(layout, ty, tx, height, &buffers[idx], row) {
            proof {
                lemma_reads_stop(
                    *layout,
                    ty as int,
                    first as int,
                    reads@,
                    buffers@,
                    row0,
                    idx + 1,
                );
            }
            return Flush::Misfit;
        }
        idx += 1;
    }
    assert(reads@.take(idx as int) =~= reads@);
    Flush::Laid
}

/// Puts one tile that was decoded into a row, if it has a place there.
fn put_tile(
    layout: &Layout,
    ty: u32,
    tx: u32,
    height: usize,
    buffer: &Vec<u8>,
    row: &mut Vec<u8>,
) -> (placed: bool)
    requires
        layout.config.num_tiles_x > 0,
        height == layout.config.height_of(ty as int),
        len_at(*layout, ty as int, tx as int) <= buffer@.len(),
    ensures
        final(row)@.len() == old(row)@.len(),
        ({
            let pixels = buffer@.take(len_at(*layout, ty as int, tx as int));
            let laid = place_tile(*layout, ty as int, tx as int, pixels, old(row)@);
            laid == if placed {
                Laid::Row(final(row)@)
            } else {
                Laid::Misfit
            }
        }),
{
    let width: usize = layout.config.tile_width_at(tx);
    let ghost len = len_at(*layout, ty as int, tx as int);
    let ghost before = row@;
    proof {
        crate::tile::lemma_tile_len(width as int, height as int, layout.bpp as int);
        assert(buffer@.len() == buffer.len());
    }
    if height > 0 {
        proof {
            assert(0 <= width * layout.bpp <= len) by (nonlinear_arith)
                requires
                    len == height * (width * layout.bpp),
                    height >= 1,
                    width >= 0,
                    layout.bpp >= 0,
            ;
        }
        let run: usize = width * layout.bpp;
        let offset: usize = match layout.place(tx, height, run, row.len()) {
            Some(offset) => offset,
            None => {
                return false;
            },
        };
        let tile: &[u8] = vstd::slice::slice_subrange(buffer.as_slice(), 0, height * run);
        assert(tile@ =~= buffer@.take(len));
        paste_region(row.as_mut_slice(), tile, layout.stride, offset, run, height);
        proof {
            crate::region::lemma_paste_len(
                before,
                tile@,
                layout.stride as int,
                offset as int,
                run as int,
                height as nat,
            );
        }
    }
    true
}

/// A tile that stops a row stops the tiles after it.
proof fn lemma_reads_stop(
    layout: Layout,
    ty: int,
    first: int,
    reads: Seq<bool>,
    buffers: Seq<Vec<u8>>,
    row: Seq<u8>,
    count: int,
)
    requires
        0 <= count <= reads.len(),
        lay_reads(layout, ty, first, reads.take(count), buffers, row) !is Row,
    ensures
        lay_reads(layout, ty, first, reads, buffers, row) == lay_reads(
            layout,
            ty,
            first,
            reads.take(count),
            buffers,
            row,
        ),
    decreases reads.len() - count,
{
    if count == reads.len() {
        assert(reads.take(count) =~= reads);
    } else {
        assert(reads.take(count + 1).drop_last() =~= reads.take(count));
        lemma_reads_stop(layout, ty, first, reads, buffers, row, count + 1);
    }
}

/// Tiles that were decoded are laid as their payloads say, or memory ran out.
proof fn lemma_reads_are_tiles(
    layout: Layout,
    ty: int,
    first: int,
    jobs: Seq<TileJob>,
    before: Seq<Vec<u8>>,
    after: Seq<Vec<u8>>,
    reads: Seq<bool>,
    row: Seq<u8>,
    count: int,
)
    requires
        0 <= count <= jobs.len() <= before.len(),
        batch_fits(layout, ty, first, payloads_of(jobs)),
        forall|i: int| 0 <= i < jobs.len() ==> (#[trigger] jobs[i]).tx == first + i,
        batch_done(layout, ty, jobs, before, after, reads),
    ensures
        ({
            let tiles = payloads_of(jobs);
            let laid = lay_reads(layout, ty, first, reads.take(count), after, row);
            ||| laid == lay_tiles(layout, ty, first, tiles.take(count), row)
            ||| laid is BadTile && may_run_out(layout, ty, first, tiles, row)
        }),
    decreases count,
{
    let tiles = payloads_of(jobs);
    if count == 0 {
        assert(reads.take(0) =~= Seq::<bool>::empty());
        assert(tiles.take(0) =~= Seq::<Seq<u8>>::empty());
    } else {
        let last = count - 1;
        lemma_reads_are_tiles(layout, ty, first, jobs, before, after, reads, row, last);
        assert(reads.take(count).drop_last() =~= reads.take(last));
        assert(tiles.take(count).drop_last() =~= tiles.take(last));
        assert(jobs[last].tx == first + last);
        assert(tile_done(
            layout,
            ty,
            first + last,
            tiles[last],
            before[last]@,
            after[last]@,
            reads[last],
        ));
        let so_far = lay_tiles(layout, ty, first, tiles.take(last), row);
        if so_far is Row && !reads[last] && tile_pixels(
            tiles[last],
            layout.config.width_of(first + last),
            layout.config.height_of(ty),
            layout.bpp as int,
        ) is Some {
            assert(tiles[last].len() >= 2 && needs_native_memory(tiles[last][0]));
            assert(lay_tiles(layout, ty, first, tiles.take(last), row) is Row);
        }
    }
}

/// Decodes a batch and puts it into a row, on several threads where `parallel` says that
/// they have been started.
fn flush_batch(
    layout: &Layout,
    ty: u32,
    first: u32,
    jobs: Vec<TileJob>,
    buffers: &mut Vec<Vec<u8>>,
    row: &mut Vec<u8>,
    parallel: bool,
) -> (flush: Flush)
    requires
        layout.fits(),
        jobs@.len() <= old(buffers)@.len(),
        first + jobs@.len() <= u32::MAX,
        forall|i: int| 0 <= i < jobs@.len() ==> (#[trigger] jobs@[i]).tx == first + i,
        forall|i: int|
            0 <= i < old(buffers)@.len() ==> (#[trigger] old(buffers)@[i])@.len() == layout.room(),
    ensures
        final(buffers)@.len() == old(buffers)@.len(),
        forall|i: int|
            0 <= i < old(buffers)@.len() ==> (#[trigger] final(buffers)@[i])@.len()
                == layout.room(),
        final(row)@.len() == old(row)@.len(),
        ({
            let tiles = payloads_of(jobs@);
            let laid = lay_batch(*layout, ty as int, first as int, tiles, old(row)@);
            match flush {
                Flush::Laid => laid == Laid::Row(final(row)@),
                Flush::Misfit => laid == Laid::Misfit,
                Flush::BadTile => laid == Laid::BadTile || may_run_out(
                    *layout,
                    ty as int,
                    first as int,
                    tiles,
                    old(row)@,
                ),
            }
        }),
{
    let ghost tiles = payloads_of(jobs@);
    let ghost before = buffers@;
    if !is_batch_fitting(layout, ty, first, &jobs) {
        return Flush::Misfit;
    }
    proof {
        assert forall|i: int| 0 <= i < jobs@.len() implies !oversized(
            *layout,
            ty as int,
            (#[trigger] jobs@[i]).tx as int,
            jobs@[i].payload@,
        ) by {
            assert(!oversized(*layout, ty as int, first + i, tiles[i]));
        }
    }
    let ghost jobs0 = jobs@;
    let reads: Vec<bool> = if parallel {
        decode_tiles(layout, ty, jobs, buffers)
    } else {
        decode_in_turn(layout, ty, &jobs, buffers)
    };
    proof {
        assert forall|i: int| 0 <= i < buffers@.len() implies (#[trigger] buffers@[i])@.len()
            == layout.room() && (i < reads@.len() && reads@[i] ==> len_at(
            *layout,
            ty as int,
            first + i,
        ) <= layout.room()) by {
            assert(before[i]@.len() == layout.room());
            if i < jobs0.len() {
                assert(jobs0[i].tx == first + i);
                assert(!oversized(*layout, ty as int, first + i, tiles[i]));
                assert(tile_done(
                    *layout,
                    ty as int,
                    first + i,
                    tiles[i],
                    before[i]@,
                    buffers@[i]@,
                    reads@[i],
                ));
            }
        }
        lemma_reads_are_tiles(
            *layout,
            ty as int,
            first as int,
            jobs0,
            before,
            buffers@,
            reads@,
            row@,
            jobs0.len() as int,
        );
        assert(reads@.take(jobs0.len() as int) =~= reads@);
        assert(tiles.take(jobs0.len() as int) =~= tiles);
    }
    lay_read_tiles(layout, ty, first, &reads, buffers, row)
}

/// A decoder among the tiles.
struct Workspace {
    tx: u32,
    ty: u32,
    batch: Vec<TileJob>,
    row: Vec<u8>,
    buffers: Vec<Vec<u8>>,
    /// Whether threads have been started for decoding.
    parallel: bool,
}

impl Workspace {
    /// How far the decoder is, having written `rows`.
    spec fn progress(&self, rows: Seq<Seq<u8>>) -> Progress {
        Progress {
            tx: self.tx as int,
            ty: self.ty as int,
            batch: payloads_of(self.batch@),
            row: self.row@,
            rows,
        }
    }

    /// The batch lies directly before the next column and is not due, and the buffers
    /// have their sizes.
    spec fn wf(&self, layout: Layout) -> bool {
        &&& layout.fits()
        &&& self.batch@.len() < BATCH_TILES
        &&& self.batch@.len() <= self.tx
        &&& self.tx < layout.config.num_tiles_x || layout.config.num_tiles_x == 0 && self.tx
            == self.batch@.len()
        &&& forall|i: int|
            0 <= i < self.batch@.len() ==> (#[trigger] self.batch@[i]).tx == self.tx
                - self.batch@.len() + i
        &&& self.row@.len() == layout.row_len()
        &&& self.buffers@.len() == BATCH_TILES
        &&& forall|i: int|
            0 <= i < BATCH_TILES ==> (#[trigger] self.buffers@[i])@.len() == layout.room()
    }

    /// Empty buffers, and no tile yet.
    fn new(layout: &Layout, parallel: bool) -> (work: Workspace)
        requires
            layout.fits(),
        ensures
            work.wf(*layout),
            work.progress(Seq::empty()) == no_tiles_yet(*layout),
    {
        let room: usize = layout.room_bytes();
        let mut buffers: Vec<Vec<u8>> = Vec::new();
        let mut i: usize = 0;
        while i < BATCH_TILES
            invariant
                i <= BATCH_TILES,
                room == layout.room(),
                buffers@.len() == i,
                forall|k: int| 0 <= k < i ==> (#[trigger] buffers@[k])@.len() == room,
            decreases BATCH_TILES - i,
        {
            buffers.push(zeros(room));
            i += 1;
        }
        let row: Vec<u8> = zeros(layout.config.tile_height as usize * layout.stride);
        let work = Workspace { tx: 0, ty: 0, batch: Vec::new(), row, buffers, parallel };
        assert(payloads_of(work.batch@) =~= Seq::empty());
        work
    }
}

/// What a tile gives that nothing follows.
proof fn lemma_last_tile(layout: Layout, state: Progress, bytes: Seq<u8>, data: Seq<u8>)
    requires
        split_chunk(bytes) == (ChunkRead::Whole { tag: CHUNK_TDAT@, data, rest: Seq::empty() }),
    ensures
        take_tile(layout, state, data) matches Step::Stop { rows, end } ==> read_tiles(
            layout,
            state,
            bytes,
        ) == (Decoded { rows, rest: Seq::empty(), starved: None, end }),
        last_tile(layout, state, bytes) == Some((state, data)),
{
}

/// What comes of a batch that was decoded and laid into the row: a tile that could not be read
/// ends the run, and so does one without a place; a row that is complete is written.
fn end_batch<C: ByteSink>(
    layout: &Layout,
    work: &mut Workspace,
    flush: Flush,
    io: &mut Channel<C>,
) -> (end: Option<Result<i32, TngFault>>)
    requires
        layout.config.num_tiles_y > 0 || !(flush is Laid),
    ensures
        reached(sink_call::<C>(), *old(io), *final(io)),
        final(work).batch == old(work).batch,
        final(work).row == old(work).row,
        final(work).buffers == old(work).buffers,
        final(work).parallel == old(work).parallel,
        ({
            let complete = old(work).tx == layout.config.num_tiles_x;
            let len = layout.config.height_of(old(work).ty as int) * layout.stride;
            let row = old(work).row@.take(len);
            let fault = Some(Err::<i32, TngFault>(TngFault::Malformed));
            let same = *final(work) == *old(work);
            match flush {
                Flush::BadTile => end == Some(Ok::<i32, TngFault>(-12i32)) && same && *final(io)
                    == *old(io),
                Flush::Misfit => end == fault && same && *final(io) == *old(io),
                Flush::Laid => if !complete {
                    end is None && same && *final(io) == *old(io)
                } else if len > old(work).row@.len() {
                    end == fault && same && *final(io) == *old(io)
                } else {
                    ||| {
                        &&& exists|count: nat|
                            count != row.len() && final(io)@ == #[trigger] old(
                                io,
                            )@.after_refusal(row, count)
                        &&& end == Some(Ok::<i32, TngFault>(-13i32))
                    }
                    ||| {
                        &&& final(io)@ == old(io)@.after_write(row)
                        &&& if old(work).ty == u32::MAX {
                            end == fault
                        } else {
                            &&& end is None
                            &&& final(work).tx == 0
                            &&& final(work).ty == old(work).ty + 1
                        }
                    }
                },
            }
        }),
{
    proof {
        lemma_reached_itself(sink_call::<C>(), *io);
    }
    match flush {
        Flush::Laid => {},
        Flush::BadTile => {
            return Some(Ok(-12));
        },
        Flush::Misfit => {
            return Some(Err(TngFault::Malformed));
        },
    }
    if work.tx == layout.config.num_tiles_x {
        let height: usize = layout.config.tile_height_at(work.ty);
        let len: usize = match height.checked_mul(layout.stride) {
            Some(len) => len,
            None => {
                assert(work.row@.len() == work.row.len());
                return Some(Err(TngFault::Malformed));
            },
        };
        if len > work.row.len() {
            return Some(Err(TngFault::Malformed));
        }
        let finished: &[u8] = vstd::slice::slice_subrange(work.row.as_slice(), 0, len);
        assert(finished@ =~= work.row@.take(len as int));
        if !io.send(finished) {
            return Some(Ok(-13));
        }
        if work.ty == u32::MAX {
            return Some(Err(TngFault::Malformed));
        }
        work.tx = 0;
        work.ty = work.ty + 1;
    }
    None
}

/// Takes in one tile; tells how the run ends if it does.
fn take_in<C: ByteSink>(
    layout: &Layout,
    work: &mut Workspace,
    payload: Vec<u8>,
    io: &mut Channel<C>,
    Ghost(h0): Ghost<History>,
) -> (end: Option<Result<i32, TngFault>>)
    requires
        old(work).wf(*layout),
        old(io)@.follows(h0),
        old(io)@.since(h0).clean(),
    ensures
        reached(sink_call::<C>(), *old(io), *final(io)),
        final(work).wf(*layout) || end is Some,
        final(io)@.follows(h0),
        final(io)@.since(h0).reads() == old(io)@.since(h0).reads(),
        final(io)@.since(h0).short().len() == 0,
        ({
            let written = old(io)@.since(h0).writes();
            let state = old(work).progress(written);
            let step = take_tile(*layout, state, payload@);
            let h = final(io)@.since(h0);
            match end {
                None => {
                    &&& h.clean()
                    &&& step == Step::Next(final(work).progress(h.writes()))
                },
                Some(end) => {
                    ||| h.clean() && step == (Step::Stop { rows: h.writes(), end })
                    ||| {
                        &&& end matches Ok(code) && code == -13
                        &&& h.writes() == written
                        &&& h.fails_last()
                        &&& completed_row(*layout, state, payload@) matches Some(row)
                            && h.refused() == seq![row]
                    }
                    ||| {
                        &&& end matches Ok(code) && code == -12
                        &&& h.clean()
                        &&& h.writes() == written
                        &&& memory_may_end(*layout, state, payload@)
                    }
                },
            }
        }),
{
    let ghost state = work.progress(io@.since(h0).writes());
    let ghost tiles = state.batch.push(payload@);
    let ghost h1 = io@;
    proof {
        lemma_reached_itself(sink_call::<C>(), *io);
        lemma_since(h0, io@);
    }
    work.batch.push(TileJob { tx: work.tx, payload });
    work.tx = work.tx + 1;
    assert(payloads_of(work.batch@) =~= tiles);
    if work.batch.len() == BATCH_TILES || work.tx == layout.config.num_tiles_x {
        let mut processing_vec: Vec<TileJob> = Vec::new();
        std::mem::swap(&mut work.batch, &mut processing_vec);
        let first: u32 = work.tx - processing_vec.len() as u32;
        let flush: Flush = flush_batch(
            layout,
            work.ty,
            first,
            processing_vec,
            &mut work.buffers,
            &mut work.row,
            work.parallel,
        );
        assert(payloads_of(work.batch@) =~= Seq::empty());
        let end = end_batch(layout, work, flush, io);
        proof {
            if end == Some(Ok::<i32, TngFault>(-13i32)) && io@ != h1 {
                assert(io@.since(h0).refused() =~= seq![
                    completed_row(*layout, state, tiles.last())->0,
                ]);
            }
        }
        return end;
    }
    None
}

/// Reads and decodes the chunks after the headers.
fn read_tile_chunks<C: ByteSource + ByteSink>(
    layout: &Layout,
    parallel: bool,
    io: &mut Channel<C>,
) -> (end: Result<i32, TngFault>)
    requires
        layout.fits(),
    ensures
        reached(port_call::<C>(), *old(io), *final(io)),
        ({
            let input = received(old(io)@, final(io)@);
            let start = no_tiles_yet(*layout);
            let last = match last_tile(*layout, start, input) {
                Some((state, payload)) => Some((*layout, state, payload)),
                None => None,
            };
            &&& final(io)@.since(old(io)@).reads() == chunk_cuts(input)
            &&& decoder_run(
                read_tiles(*layout, start, input),
                last,
                final(io)@.since(old(io)@),
                end,
            )
        }),
{
    let mut work: Workspace = Workspace::new(layout, parallel);
    let ghost h0 = io@;
    let ghost c0 = *io;
    let ghost start = no_tiles_yet(*layout);
    let ghost l = *layout;
    let mut budget: u64 = u64::MAX;
    proof {
        lemma_reached_itself(port_call::<C>(), c0);
        lemma_since_itself(h0);
        lemma_blank();
        lemma_nothing_cut();
        lemma_no_cuts();
        assert forall|more: Seq<u8>| #[trigger]
            read_tiles(l, start, received(h0, io@) + more) == read_tiles(
                l,
                work.progress(io@.since(h0).writes()),
                more,
            ) by {
            assert(received(h0, io@) + more =~= more);
        }
        assert forall|more: Seq<u8>| more.len() > 0 implies #[trigger]
            last_tile(l, start, received(h0, io@) + more) == last_tile(
                l,
                work.progress(io@.since(h0).writes()),
                more,
            ) by {
            assert(received(h0, io@) + more =~= more);
        }
    }
    while budget > 0
        invariant
            l == *layout,
            start == no_tiles_yet(l),
            h0 == old(io)@,
            c0 == *old(io),
            reached(port_call::<C>(), c0, *io),
            work.wf(l),
            io@.follows(h0),
            io@.since(h0).clean(),
            cut_into(received(h0, io@), io@.since(h0).reads()),
            chunk_cuts(received(h0, io@)) == io@.since(h0).reads(),
            received(h0, io@).len() >= u64::MAX - budget,
            forall|more: Seq<u8>| #[trigger]
                read_tiles(l, start, received(h0, io@) + more) == read_tiles(
                    l,
                    work.progress(io@.since(h0).writes()),
                    more,
                ),
            forall|more: Seq<u8>|
                more.len() > 0 ==> #[trigger] last_tile(l, start, received(h0, io@) + more) == last_tile(
                    l,
                    work.progress(io@.since(h0).writes()),
                    more,
                ),
        decreases budget,
    {
        let ghost c1 = *io;
        let ghost h1 = io@;
        let ghost used = received(h0, h1);
        let ghost state = work.progress(h1.since(h0).writes());
        let chunk = read_chunk(io);
        let ghost bytes = received(h1, io@);
        let ghost nothing = Seq::<u8>::empty();
        proof {
            lemma_source_reached(c1, *io);
            lemma_reached(port_call::<C>(), c0, c1, *io);
            lemma_since_joins(h0, h1, io@);
            assert(io@.since(h0).writes() =~= h1.since(h0).writes());
            assert(io@.since(h0).refused() =~= Seq::empty());
            assert(received(h0, io@) =~= used + bytes);
            lemma_cut_on(used, h1.since(h0).reads(), bytes);
            assert(bytes + nothing =~= bytes);
        }
        let chunk: Chunk = match chunk {
            Ok(chunk) => chunk,
            Err(_) => {
                assert(io@.since(h0).short() =~= seq![io@.since(h1).short()[0]]);
                return Ok(0);
            },
        };
        assert forall|more: Seq<u8>|
            split_chunk(#[trigger] (bytes + more)) == (ChunkRead::Whole {
                tag: chunk.tag@,
                data: chunk.data@,
                rest: more,
            }) by {
            crate::chunk::lemma_split_chunk_extends(bytes, more);
            assert(nothing + more =~= more);
        }
        assert(io@.since(h0).short() =~= Seq::empty());
        assert(chunk.tag@.len() == 4);
        if tag_is(&chunk.tag, &CHUNK_TDAT) {
            let ghost data = chunk.data@;
            let ghost c2 = *io;
            let end = take_in(layout, &mut work, chunk.data, io, Ghost(h0));
            proof {
                lemma_sink_reached(c2, *io);
                lemma_reached(port_call::<C>(), c0, c2, *io);
            }
            match end {
                Some(end) => {
                    proof {
                        assert(received(h0, io@) =~= used + bytes);
                        assert(io@.since(h0).short() =~= Seq::empty());
                        lemma_last_tile(l, state, bytes, data);
                    }
                    return end;
                },
                None => {},
            }
            proof {
                assert(received(h0, io@) =~= used + bytes);
                let next = work.progress(io@.since(h0).writes());
                assert forall|more: Seq<u8>| #[trigger]
                    read_tiles(l, start, received(h0, io@) + more) == read_tiles(l, next, more) by {
                    assert(received(h0, io@) + more =~= used + (bytes + more));
                    assert(read_tiles(l, start, used + (bytes + more)) == read_tiles(
                        l,
                        state,
                        bytes + more,
                    ));
                }
                assert forall|more: Seq<u8>| more.len() > 0 implies #[trigger]
                    last_tile(l, start, received(h0, io@) + more) == last_tile(l, next, more) by {
                    assert(received(h0, io@) + more =~= used + (bytes + more));
                    assert(last_tile(l, start, used + (bytes + more)) == last_tile(
                        l,
                        state,
                        bytes + more,
                    ));
                }
            }
        } else if tag_is(&chunk.tag, &CHUNK_IEND) {
            return Ok(0);
        } else {
            proof {
                assert forall|more: Seq<u8>| #[trigger]
                    read_tiles(l, start, received(h0, io@) + more) == read_tiles(l, state, more) by {
                    assert(received(h0, io@) + more =~= used + (bytes + more));
                    assert(read_tiles(l, start, used + (bytes + more)) == read_tiles(
                        l,
                        state,
                        bytes + more,
                    ));
                }
                assert forall|more: Seq<u8>| more.len() > 0 implies #[trigger]
                    last_tile(l, start, received(h0, io@) + more) == last_tile(l, state, more) by {
                    assert(received(h0, io@) + more =~= used + (bytes + more));
                    assert(last_tile(l, start, used + (bytes + more)) == last_tile(
                        l,
                        state,
                        bytes + more,
                    ));
                }
            }
        }
        budget -= 1;
    }
    Err(TngFault::Endless)
}

/// The image information in the data of an image header chunk.
fn read_info(data: &Vec<u8>) -> (info: TngImageInfo)
    requires
        data@.len() >= 10,
    ensures
        info == info_in(data@),
{
    TngImageInfo {
        width: read_be32(data, 0),
        height: read_be32(data, 4),
        bit_depth: data[8],
        color_type: data[9],
    }
}

/// The tile grid in the data of a tile grid header chunk.
fn read_config(data: &Vec<u8>) -> (config: TngTileConfig)
    requires
        data@.len() >= 24,
    ensures
        config == config_in(data@),
{
    TngTileConfig {
        num_tiles_x: read_be32(data, 0),
        num_tiles_y: read_be32(data, 4),
        tile_width: read_be32(data, 8),
        tile_height: read_be32(data, 12),
        edge_width: read_be32(data, 16),
        edge_height: read_be32(data, 20),
        threads: 1,
        compression_algo: 0,
        filter_algo: 0,
    }
}

/// Reads chunks up to the tile grid header; tells how the run ends if it does.
#[verifier::rlimit(30)]
fn read_header_chunks<C: ByteSource>(dec: &mut TngDecoder, io: &mut Channel<C>) -> (end: Option<
    Result<i32, TngFault>,
>)
    ensures
        reached(source_call::<C>(), *old(io), *final(io)),
        ({
            let input = received(old(io)@, final(io)@);
            &&& final(io)@.since(old(io)@).reads() == chunk_cuts(input)
            &&& match end {
                None => {
                    &&& final(io)@.since(old(io)@).short().len() == 0
                    &&& cut_into(input, final(io)@.since(old(io)@).reads())
                    &&& forall|more: Seq<u8>| #[trigger]
                        read_headers(*old(dec), input + more) == (Headers::Read {
                            decoder: *final(dec),
                            rest: more,
                        })
                },
                Some(end) => {
                    ||| {
                        &&& read_headers(*old(dec), input) matches Headers::Ended { decoder, run }
                        &&& decoder == *final(dec)
                        &&& final(io)@.since(old(io)@).short() == failed_reads(run)
                        &&& run.starved is Some ==> final(io)@.since(old(io)@).fails_last()
                        &&& run == Decoded {
                            rows: Seq::empty(),
                            rest: Seq::empty(),
                            starved: run.starved,
                            end,
                        }
                    }
                    ||| {
                        &&& end matches Err(fault) && fault == TngFault::Endless
                        &&& input.len() >= u64::MAX
                    }
                },
            }
        }),
{
    let ghost h0 = io@;
    let ghost c0 = *io;
    let ghost dec0 = *dec;
    let mut budget: u64 = u64::MAX;
    proof {
        lemma_reached_itself(source_call::<C>(), c0);
        lemma_since_itself(h0);
        lemma_blank();
        lemma_nothing_cut();
        lemma_no_cuts();
        assert forall|more: Seq<u8>| #[trigger]
            read_headers(dec0, received(h0, io@) + more) == read_headers(*dec, more) by {
            assert(received(h0, io@) + more =~= more);
        }
    }
    while budget > 0
        invariant
            h0 == old(io)@,
            dec0 == *old(dec),
            io@.follows(h0),
            io@.since(h0).short().len() == 0,
            c0 == *old(io),
            reached(source_call::<C>(), c0, *io),
            cut_into(received(h0, io@), io@.since(h0).reads()),
            chunk_cuts(received(h0, io@)) == io@.since(h0).reads(),
            received(h0, io@).len() >= u64::MAX - budget,
            forall|more: Seq<u8>| #[trigger]
                read_headers(dec0, received(h0, io@) + more) == read_headers(*dec, more),
        decreases budget,
    {
        let ghost c1 = *io;
        let ghost h1 = io@;
        let ghost used = received(h0, h1);
        let ghost before = *dec;
        let chunk = read_chunk(io);
        let ghost bytes = received(h1, io@);
        let ghost nothing = Seq::<u8>::empty();
        proof {
            lemma_reached(source_call::<C>(), c0, c1, *io);
            lemma_since_joins(h0, h1, io@);
            assert(received(h0, io@) =~= used + bytes);
            lemma_cut_on(used, h1.since(h0).reads(), bytes);
            assert(bytes + nothing =~= bytes);
        }
        let chunk: Chunk = match chunk {
            Ok(chunk) => chunk,
            Err(part) => {
                assert(1 <= part <= 4);
                assert(io@.since(h0).short() =~= seq![io@.since(h1).short()[0]]);
                return Some(Ok(-2 - part as i32));
            },
        };
        assert forall|more: Seq<u8>|
            split_chunk(#[trigger] (bytes + more)) == (ChunkRead::Whole {
                tag: chunk.tag@,
                data: chunk.data@,
                rest: more,
            }) by {
            crate::chunk::lemma_split_chunk_extends(bytes, more);
            assert(nothing + more =~= more);
        }
        assert(chunk.tag@.len() == 4);
        if tag_is(&chunk.tag, &CHUNK_IHDR) {
            if chunk.data.len() < 10 {
                assert(io@.since(h0).short() =~= Seq::empty());
                return Some(Err(TngFault::Malformed));
            }
            let info: TngImageInfo = read_info(&chunk.data);
            dec.bytes_per_pixel = bytes_per_pixel(info.color_type, info.bit_depth);
            dec.info = Some(info);
        } else if tag_is(&chunk.tag, &CHUNK_THDR) {
            assert(CHUNK_THDR@ != CHUNK_IHDR@) by {
                assert(CHUNK_THDR@[0] != CHUNK_IHDR@[0]);
            }
            if chunk.data.len() < 24 {
                assert(io@.since(h0).short() =~= Seq::empty());
                return Some(Err(TngFault::Malformed));
            }
            dec.config = Some(read_config(&chunk.data));
            assert forall|more: Seq<u8>| #[trigger]
                read_headers(dec0, received(h0, io@) + more) == (Headers::Read {
                    decoder: *dec,
                    rest: more,
                }) by {
                assert(received(h0, io@) + more =~= used + (bytes + more));
                assert(read_headers(dec0, used + (bytes + more)) == read_headers(
                    before,
                    bytes + more,
                ));
            }
            return None;
        }
        assert forall|more: Seq<u8>| #[trigger]
            read_headers(dec0, received(h0, io@) + more) == read_headers(*dec, more) by {
            assert(received(h0, io@) + more =~= used + (bytes + more));
            assert(read_headers(dec0, used + (bytes + more)) == read_headers(before, bytes + more));
        }
        budget -= 1;
    }
    Some(Err(TngFault::Endless))
}

/// The layout of an image, if its size can be handled.
fn plan_layout(info: &TngImageInfo, config: &TngTileConfig, bpp: usize) -> (layout: Option<Layout>)
    ensures
        layout == layout_of(*info, *config, bpp),
{
    let stride: usize = match (info.width as usize).checked_mul(bpp) {
        Some(stride) => stride,
        None => {
            return None;
        },
    };
    let row_len: usize = match (config.tile_height as usize).checked_mul(stride) {
        Some(len) => len,
        None => {
            return None;
        },
    };
    let area: usize = match (config.tile_width as usize).checked_mul(config.tile_height as usize) {
        Some(area) => area,
        None => {
            return None;
        },
    };
    let room: usize = match area.checked_mul(bpp) {
        Some(room) => room,
        None => {
            return None;
        },
    };
    if row_len > isize::MAX as usize || room > isize::MAX as usize {
        return None;
    }
    Some(Layout { config: *config, stride, bpp })
}

/// Reads a TNG stream and writes the pixels of its image, one row of tiles after the
/// other.
///
/// The result is the status code of the run: 0 at the end chunk or where the source
/// gives up among the tiles, -1 without a decoder, -2 if the signature is missing, -3 to
/// -6 if the source gives up in the length, type, data or checksum of a header chunk, -9
/// if there is no image header, -12 if a tile cannot be decoded, -13 if a row was
/// refused. It is an error if the headers and tiles do not fit together.
pub fn tng_decoder_process<C: ByteSource + ByteSink>(
    decoder: Option<&mut TngDecoder>,
    io: &mut Channel<C>,
) -> (end: Result<i32, TngFault>)
    ensures
        decoder is None ==> (end matches Ok(code) && code == -1) && *final(io) == *old(io),
        reached(port_call::<C>(), *old(io), *final(io)),
        decoder matches Some(dec) ==> {
            let h = final(io)@.since(old(io)@);
            let (after, full) = decode(*dec, h.got());
            &&& h.reads() == stream_cuts(h.got())
            &&& decoder_run(full, decode_last_tile(*dec, h.got()), h, end)
            &&& after == *final(dec) || (end matches Err(fault) && fault == TngFault::Endless)
        },
{
    let ghost c0 = *io;
    proof {
        lemma_reached_itself(port_call::<C>(), c0);
    }
    let dec: &mut TngDecoder = match decoder {
        Some(dec) => dec,
        None => {
            return Ok(-1);
        },
    };
    let ghost dec0 = *dec;
    let ghost h0 = io@;
    proof {
        lemma_since_itself(h0);
        lemma_blank();
        lemma_since(h0, h0);
    }
    let sig: Option<Vec<u8>> = io.receive(8);
    let ghost c1 = *io;
    proof {
        lemma_source_reached(c0, c1);
        lemma_source_writes_nothing(c0, c1);
        assert(io@.since(h0).writes() =~= Seq::empty());
        lemma_no_cuts();
    }
    match sig {
        Some(sig) => {
            let ghost got = io@.since(h0).got();
            assert(got =~= sig@);
            assert(got.take(8) =~= sig@);
            assert(got.skip(8) =~= Seq::<u8>::empty());
            assert(io@.since(h0).reads() =~= seq![sig@]);
            assert(io@.since(h0).reads() =~= stream_cuts(got));
            let same = sig[0] == TNG_MAGIC[0] && sig[1] == TNG_MAGIC[1] && sig[2] == TNG_MAGIC[2]
                && sig[3] == TNG_MAGIC[3] && sig[4] == TNG_MAGIC[4] && sig[5] == TNG_MAGIC[5]
                && sig[6] == TNG_MAGIC[6] && sig[7] == TNG_MAGIC[7];
            assert(same ==> sig@ =~= TNG_MAGIC@);
            if !same {
                return Ok(-2);
            }
        },
        None => {
            assert(io@.since(h0).short() =~= seq![8nat]);
            assert(io@.since(h0).reads() =~= Seq::empty());
            return Ok(-2);
        },
    }
    let ghost h1 = io@;
    let header_end = read_header_chunks(dec, io);
    let ghost c2 = *io;
    let ghost h2 = io@;
    let ghost headers = received(h1, h2);
    proof {
        lemma_source_reached(c1, c2);
        lemma_source_writes_nothing(c1, c2);
        lemma_reached(port_call::<C>(), c0, c1, c2);
        lemma_since_joins(h0, h1, h2);
        let h = h2.since(h0);
        assert(h.got().take(8) =~= TNG_MAGIC@);
        assert(h.got().skip(8) =~= headers);
        assert(h.reads() =~= stream_cuts(h.got()));
        assert(headers + Seq::<u8>::empty() =~= headers);
        assert(h.writes() =~= Seq::empty());
        assert(h.refused() =~= Seq::empty());
        assert(h.short() =~= h2.since(h1).short());
    }
    match header_end {
        Some(end) => {
            return end;
        },
        None => {},
    }
    assert(h2.since(h0).short() =~= Seq::empty());
    let info: TngImageInfo = match dec.info {
        Some(info) => info,
        None => {
            return Ok(-9);
        },
    };
    let config: TngTileConfig = match dec.config {
        Some(config) => config,
        None => {
            return Ok(-10);
        },
    };
    let parallel: bool = start_threads(BATCH_TILES).is_ok();
    let layout: Layout = match plan_layout(&info, &config, dec.bytes_per_pixel) {
        Some(layout) => layout,
        None => {
            return Err(TngFault::Malformed);
        },
    };
    let end = read_tile_chunks(&layout, parallel, io);
    proof {
        lemma_reached(port_call::<C>(), c0, c2, *io);
        lemma_since_joins(h0, h2, io@);
        let h = io@.since(h0);
        let tiles = io@.since(h2);
        assert(h.got().take(8) =~= TNG_MAGIC@);
        assert(h.got().skip(8) =~= headers + tiles.got());
        lemma_cut_on(headers, h2.since(h1).reads(), tiles.got());
        assert(h.reads() =~= stream_cuts(h.got()));
        assert(h.writes() =~= tiles.writes());
        assert(h.short() =~= tiles.short());
        assert(h.refused() =~= tiles.refused());
    }
    end
}

} // verus!
