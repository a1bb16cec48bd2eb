//! What a decoder makes of each chunk, and how it puts rows of tiles together.

use crate::bytes::number_at;
use crate::chunk::{chunk_bytes, split_chunk, split_undoes_chunk, ChunkRead};
use crate::decoder::{
    batch_due, batch_fits, config_in, decode, info_in, lay_batch, lay_tile, lay_tiles, layout_of,
    no_tiles_yet, oversized, read_headers, read_tiles, take_tile, Headers, Laid, Layout,
    Progress, Step,
};
use crate::encoder::tiles_bytes;
use crate::filter::lemma_position;
use crate::format::{
    pixel_bytes, TngDecoder, TngFault, TngImageInfo, TngTileConfig, CHUNK_IEND, CHUNK_IHDR,
    CHUNK_TDAT, CHUNK_THDR,
};
use crate::region::{lemma_paste_index, lemma_paste_len, paste};
use crate::tile::tile_pixels;
use vstd::prelude::*;

verus! {

/// Takes in tiles, one after the other.
pub open spec fn take_tiles(layout: Layout, state: Progress, tiles: Seq<Seq<u8>>) -> Step
    decreases tiles.len(),
{
    if tiles.len() == 0 {
        Step::Next(state)
    } else {
        match take_tiles(layout, state, tiles.drop_last()) {
            Step::Next(next) => take_tile(layout, next, tiles.last()),
            stopped => stopped,
        }
    }
}

/// The byte of a row of pixels at which tile `tx` starts.
pub open spec fn tile_start(layout: Layout, tx: int) -> int {
    tx * layout.config.tile_width * layout.bpp
}

/// The bytes of a row of pixels that tile `tx` covers: the last tile of a row is as wide as the
/// edge, and the others as wide as a tile.
pub open spec fn tile_run(layout: Layout, tx: int) -> int {
    if tx + 1 == layout.config.num_tiles_x {
        layout.config.edge_width * layout.bpp
    } else {
        layout.config.tile_width * layout.bpp
    }
}

/// The rows of pixels of row `ty` of tiles: the last row of tiles is as high as the edge, and
/// the others as high as a tile.
pub open spec fn tile_rows(layout: Layout, ty: int) -> int {
    if ty + 1 == layout.config.num_tiles_y {
        layout.config.edge_height as int
    } else {
        layout.config.tile_height as int
    }
}

/// The pixels of the tile in column `tx` and row `ty`.
pub open spec fn pixels_at(layout: Layout, ty: int, tx: int, payload: Seq<u8>) -> Option<Seq<u8>> {
    tile_pixels(
        payload,
        if tx + 1 == layout.config.num_tiles_x {
            layout.config.edge_width as int
        } else {
            layout.config.tile_width as int
        },
        tile_rows(layout, ty),
        layout.bpp as int,
    )
}

/// Whether the tile in column `tx` and row `ty` can be read, has its place within the width of
/// the image, and fits in a buffer.
pub open spec fn tile_is_good(layout: Layout, ty: int, tx: int, payload: Seq<u8>) -> bool {
    &&& pixels_at(layout, ty, tx, payload) matches Some(pixels)
    &&& pixels.len() == tile_rows(layout, ty) * tile_run(layout, tx)
    &&& tile_start(layout, tx) + tile_run(layout, tx) <= layout.stride
    &&& !oversized(layout, ty, tx, payload)
}

/// Whether `tiles` are the first tiles of row `ty`, and all of them are good.
pub open spec fn tiles_are_good(layout: Layout, ty: int, tiles: Seq<Seq<u8>>) -> bool {
    &&& 0 < layout.config.num_tiles_x
    &&& 0 < layout.config.num_tiles_y
    &&& tiles.len() <= layout.config.num_tiles_x
    &&& forall|tx: int|
        0 <= tx < tiles.len() ==> tile_is_good(layout, ty, tx, #[trigger] tiles[tx])
}

/// Whether `row` shows the first `count` of `tiles`, each at its place, and `before` elsewhere.
pub open spec fn shows(
    layout: Layout,
    ty: int,
    tiles: Seq<Seq<u8>>,
    count: int,
    before: Seq<u8>,
    row: Seq<u8>,
) -> bool {
    &&& row.len() == before.len()
    &&& forall|tx: int, y: int, x: int|
        #![trigger tile_start(layout, tx), row[y * layout.stride + tile_start(layout, tx) + x]]
        0 <= tx < count && 0 <= y < tile_rows(layout, ty) && 0 <= x < tile_run(layout, tx)
            ==> row[y * layout.stride + tile_start(layout, tx) + x] == pixels_at(
            layout,
            ty,
            tx,
            tiles[tx],
        )->0[y * tile_run(layout, tx) + x]
    &&& forall|p: int|
        0 <= p < row.len() && (p >= tile_rows(layout, ty) * layout.stride || count == 0 || p
            % layout.stride as int >= tile_start(layout, count - 1) + tile_run(layout, count - 1))
            ==> #[trigger] row[p] == before[p]
}

/// A tile ends where the next one starts, or before, and tiles start one after the other.
proof fn lemma_starts(layout: Layout, a: int, b: int)
    requires
        0 <= a < b < layout.config.num_tiles_x,
    ensures
        0 <= tile_start(layout, a),
        0 <= tile_run(layout, a),
        0 <= tile_run(layout, b),
        tile_start(layout, a) + tile_run(layout, a) <= tile_start(layout, b),
{
    let w = layout.config.tile_width as int;
    let bpp = layout.bpp as int;
    assert(0 <= w * bpp && 0 <= layout.config.edge_width * bpp) by (nonlinear_arith)
        requires
            0 <= w,
            0 <= bpp,
    ;
    assert(0 <= a * w * bpp && a * w * bpp + w * bpp <= b * w * bpp) by (nonlinear_arith)
        requires
            0 <= a,
            a + 1 <= b,
            0 <= w,
            0 <= bpp,
    ;
}

proof fn lemma_first_start(layout: Layout, tx: int)
    requires
        0 <= tx,
    ensures
        0 <= tile_start(layout, tx),
        0 <= tile_run(layout, tx),
{
    let w = layout.config.tile_width as int;
    let bpp = layout.bpp as int;
    assert(0 <= tx * w * bpp && 0 <= w * bpp && 0 <= layout.config.edge_width * bpp)
        by (nonlinear_arith)
        requires
            0 <= tx,
            0 <= w,
            0 <= bpp,
    ;
}

/// One more tile shows at its place.
#[verifier::rlimit(40)]
proof fn lemma_one_more(
    layout: Layout,
    ty: int,
    tiles: Seq<Seq<u8>>,
    count: int,
    before: Seq<u8>,
    row: Seq<u8>,
) -> (next: Seq<u8>)
    requires
        tiles_are_good(layout, ty, tiles),
        0 <= count < tiles.len(),
        tile_rows(layout, ty) * layout.stride <= before.len(),
        shows(layout, ty, tiles, count, before, row),
    ensures
        lay_tile(layout, ty, count, tiles[count], row) == Laid::Row(next),
        shows(layout, ty, tiles, count + 1, before, next),
{
    let s = layout.stride as int;
    let h = tile_rows(layout, ty);
    let start = tile_start(layout, count);
    let run = tile_run(layout, count);
    assert(tile_is_good(layout, ty, count, tiles[count]));
    let pixels = pixels_at(layout, ty, count, tiles[count])->0;
    lemma_first_start(layout, count);
    let next = paste(row, pixels, s, start, run, h as nat);
    lemma_paste_len(row, pixels, s, start, run, h as nat);
    assert(h > 0 ==> (h - 1) * s + s == h * s) by (nonlinear_arith);
    assert(layout.config.width_of(count) * layout.bpp == run);
    assert(layout.config.height_of(ty) == h);
    assert(lay_tile(layout, ty, count, tiles[count], row) == Laid::Row(next));
    if s == 0 {
        assert(h * s == 0) by (nonlinear_arith)
            requires
                s == 0,
        ;
        assert(run == 0 && start == 0);
        lemma_empty_runs(row, pixels, s, start, h as nat);
        assert forall|tx: int, y: int, x: int|
            #![trigger tile_start(layout, tx), next[y * s + tile_start(layout, tx) + x]]
            0 <= tx < count + 1 && 0 <= y < h && 0 <= x < tile_run(layout, tx) implies next[y * s
            + tile_start(layout, tx) + x] == pixels_at(layout, ty, tx, tiles[tx])->0[y * tile_run(
            layout,
            tx,
        ) + x] by {
            assert(tile_is_good(layout, ty, tx, tiles[tx]));
            lemma_first_start(layout, tx);
        }
        assert forall|p: int| 0 <= p < next.len() && (p >= h * s || count + 1 == 0 || p % s
            >= start + run) implies #[trigger] next[p] == before[p] by {
            assert(row[p] == before[p]);
        }
    } else {
        assert forall|tx: int, y: int, x: int|
            #![trigger tile_start(layout, tx), next[y * s + tile_start(layout, tx) + x]]
            0 <= tx < count + 1 && 0 <= y < h && 0 <= x < tile_run(layout, tx) implies next[y * s
            + tile_start(layout, tx) + x] == pixels_at(layout, ty, tx, tiles[tx])->0[y * tile_run(
            layout,
            tx,
        ) + x] by {
            assert(tile_is_good(layout, ty, tx, tiles[tx]));
            lemma_first_start(layout, tx);
            let at = tile_start(layout, tx) + x;
            let p = y * s + at;
            lemma_position(y, at, s, h);
            assert(p == y * s + tile_start(layout, tx) + x);
            lemma_paste_index(row, pixels, s, start, run, h as nat, p);
            if tx < count {
                lemma_starts(layout, tx, count);
                assert(next[p] == row[p]);
                assert(row[y * s + tile_start(layout, tx) + x] == pixels_at(
                    layout,
                    ty,
                    tx,
                    tiles[tx],
                )->0[y * tile_run(layout, tx) + x]);
            }
        }
        assert forall|p: int| 0 <= p < next.len() && (p >= h * s || count + 1 == 0 || p % s
            >= start + run) implies #[trigger] next[p] == before[p] by {
            lemma_paste_index(row, pixels, s, start, run, h as nat, p);
            if p >= h * s {
                assert(p / s >= h) by (nonlinear_arith)
                    requires
                        p >= h * s,
                        s > 0,
                ;
            } else if count > 0 {
                lemma_starts(layout, count - 1, count);
            }
            assert(row[p] == before[p]);
        }
    }
    next
}

/// Runs without bytes change nothing.
proof fn lemma_empty_runs(row: Seq<u8>, tile: Seq<u8>, stride: int, offset: int, rows: nat)
    ensures
        paste(row, tile, stride, offset, 0, rows) == row,
    decreases rows,
{
    if rows > 0 {
        lemma_empty_runs(row, tile, stride, offset, (rows - 1) as nat);
        assert(paste(row, tile, stride, offset, 0, rows) =~= row);
    }
}

/// Some tiles of a row, one after the other.
proof fn lemma_some_more(
    layout: Layout,
    ty: int,
    tiles: Seq<Seq<u8>>,
    first: int,
    count: int,
    before: Seq<u8>,
    row: Seq<u8>,
) -> (next: Seq<u8>)
    requires
        tiles_are_good(layout, ty, tiles),
        0 <= first,
        0 <= count,
        first + count <= tiles.len(),
        tile_rows(layout, ty) * layout.stride <= before.len(),
        shows(layout, ty, tiles, first, before, row),
    ensures
        lay_tiles(layout, ty, first, tiles.subrange(first, first + count), row) == Laid::Row(next),
        shows(layout, ty, tiles, first + count, before, next),
    decreases count,
{
    let some = tiles.subrange(first, first + count);
    if count == 0 {
        row
    } else {
        let so_far = lemma_some_more(layout, ty, tiles, first, count - 1, before, row);
        assert(some.drop_last() =~= tiles.subrange(first, first + count - 1));
        lemma_one_more(layout, ty, tiles, first + count - 1, before, so_far)
    }
}

/// Good tiles fit in the buffers.
proof fn lemma_batch_fits(layout: Layout, ty: int, tiles: Seq<Seq<u8>>, first: int, count: int)
    requires
        tiles_are_good(layout, ty, tiles),
        0 <= first,
        0 <= count,
        first + count <= tiles.len(),
    ensures
        batch_fits(layout, ty, first, tiles.subrange(first, first + count)),
{
    let some = tiles.subrange(first, first + count);
    assert forall|i: int| 0 <= i < some.len() implies !oversized(
        layout,
        ty,
        first + i,
        #[trigger] some[i],
    ) by {
        assert(tile_is_good(layout, ty, first + i, tiles[first + i]));
    }
}

/// A decoder that has taken in the first `k` tiles of a row that it does not complete: those of
/// the batches of four that are complete have been laid into the row, and the others wait.
spec fn underway(
    layout: Layout,
    start: Progress,
    tiles: Seq<Seq<u8>>,
    k: int,
    state: Progress,
) -> bool {
    &&& state.tx == k
    &&& state.ty == start.ty
    &&& state.rows == start.rows
    &&& state.batch == tiles.subrange(k - k % 4, k)
    &&& shows(layout, start.ty, tiles, k - k % 4, start.row, state.row)
}

proof fn lemma_underway(layout: Layout, start: Progress, tiles: Seq<Seq<u8>>, k: int)
    requires
        start.tx == 0,
        start.batch.len() == 0,
        tiles_are_good(layout, start.ty, tiles),
        tile_rows(layout, start.ty) * layout.stride <= start.row.len(),
        0 <= k <= tiles.len(),
        k < layout.config.num_tiles_x,
    ensures
        take_tiles(layout, start, tiles.take(k)) matches Step::Next(state) && underway(
            layout,
            start,
            tiles,
            k,
            state,
        ),
    decreases k,
{
    if k == 0 {
        assert(tiles.subrange(0, 0) =~= Seq::empty());
        assert(start.batch =~= Seq::empty());
        assert(take_tiles(layout, start, tiles.take(0)) == Step::Next(start));
    } else {
        lemma_underway(layout, start, tiles, k - 1);
        assert(tiles.take(k).drop_last() =~= tiles.take(k - 1));
        if let Step::Next(state) = take_tiles(layout, start, tiles.take(k - 1)) {
            let first = (k - 1) - (k - 1) % 4;
            let batch = state.batch.push(tiles[k - 1]);
            assert(batch =~= tiles.subrange(first, k));
            if batch_due(layout, state) {
                lemma_batch_fits(layout, start.ty, tiles, first, k - first);
                let next = lemma_some_more(
                    layout,
                    start.ty,
                    tiles,
                    first,
                    k - first,
                    start.row,
                    state.row,
                );
                assert(lay_batch(layout, start.ty, first, batch, state.row) == Laid::Row(next));
                assert(tiles.subrange(k, k) =~= Seq::empty());
            }
        }
    }
}

/// A row of tiles is put together tile by tile: whatever the decoder did before, where all tiles
/// of a row can be read and have their places, the row that is written shows each tile at its
/// place and is as high as the row of tiles. Between and beside the tiles it shows what the row
/// before it left there. The decoder is then at the start of the next row of tiles.
pub proof fn row_shows_its_tiles(layout: Layout, start: Progress, tiles: Seq<Seq<u8>>)
    requires
        start.tx == 0,
        start.batch.len() == 0,
        start.ty < u32::MAX,
        tiles.len() == layout.config.num_tiles_x,
        tiles_are_good(layout, start.ty, tiles),
        tile_rows(layout, start.ty) * layout.stride <= start.row.len(),
    ensures
        take_tiles(layout, start, tiles) matches Step::Next(end) && {
            let len = tile_rows(layout, start.ty) * layout.stride;
            &&& end.tx == 0
            &&& end.ty == start.ty + 1
            &&& end.batch.len() == 0
            &&& shows(layout, start.ty, tiles, tiles.len() as int, start.row, end.row)
            &&& end.rows == start.rows.push(end.row.subrange(0, len))
        },
{
    let n = tiles.len() as int;
    let k = n - 1;
    let len = tile_rows(layout, start.ty) * layout.stride;
    lemma_underway(layout, start, tiles, k);
    assert(tiles.drop_last() =~= tiles.take(k));
    if let Step::Next(state) = take_tiles(layout, start, tiles.take(k)) {
        let first = k - k % 4;
        let batch = state.batch.push(tiles[k]);
        assert(batch =~= tiles.subrange(first, n));
        lemma_batch_fits(layout, start.ty, tiles, first, n - first);
        let next = lemma_some_more(
            layout,
            start.ty,
            tiles,
            first,
            n - first,
            start.row,
            state.row,
        );
        assert(lay_batch(layout, start.ty, first, batch, state.row) == Laid::Row(next));
        assert(next.take(len) =~= next.subrange(0, len));
    }
}

/// A tile that cannot be read ends the run with code -12, as soon as four tiles wait or the row
/// is complete, and nothing more is written: the tiles before it in its batch have been looked
/// at, and those after it no longer matter.
pub proof fn unreadable_tile_ends_the_run(
    layout: Layout,
    start: Progress,
    tiles: Seq<Seq<u8>>,
    bad: int,
    upto: int,
)
    requires
        start.tx == 0,
        start.batch.len() == 0,
        0 <= bad < upto <= tiles.len(),
        tiles.len() <= layout.config.num_tiles_x,
        0 < layout.config.num_tiles_y,
        tiles_are_good(layout, start.ty, tiles.take(bad)),
        tile_rows(layout, start.ty) * layout.stride <= start.row.len(),
        pixels_at(layout, start.ty, bad, tiles[bad]) is None,
        upto == bad - bad % 4 + 4 || upto == layout.config.num_tiles_x && upto < bad - bad % 4 + 4,
        forall|tx: int|
            0 <= tx < upto ==> !oversized(layout, start.ty, tx, #[trigger] tiles[tx]),
    ensures
        take_tiles(layout, start, tiles.take(upto)) == (Step::Stop {
            rows: start.rows,
            end: Ok(-12i32),
        }),
{
    let first = bad - bad % 4;
    let good = tiles.take(bad);
    assert(good.take(first) =~= tiles.take(first));
    lemma_underway(layout, start, good, first);
    assert(good.subrange(first, first) =~= Seq::empty());
    lemma_waiting(layout, start, tiles, first, upto - 1);
    assert(tiles.take(upto).drop_last() =~= tiles.take(upto - 1));
    if let Step::Next(state) = take_tiles(layout, start, tiles.take(upto - 1)) {
        let batch = state.batch.push(tiles[upto - 1]);
        assert(batch =~= tiles.subrange(first, upto));
        lemma_bad_batch(layout, start.ty, tiles, first, bad, upto, start.row, state.row);
    }
}

/// Tiles that do not fill a batch wait.
proof fn lemma_waiting(layout: Layout, start: Progress, tiles: Seq<Seq<u8>>, first: int, k: int)
    requires
        first % 4 == 0,
        0 <= first <= k < first + 4,
        k < layout.config.num_tiles_x,
        k <= tiles.len(),
        take_tiles(layout, start, tiles.take(first)) matches Step::Next(state) && state.tx == first
            && state.batch.len() == 0,
    ensures
        ({
            let before = take_tiles(layout, start, tiles.take(first))->Next_0;
            take_tiles(layout, start, tiles.take(k)) == Step::Next(
                Progress { tx: k, batch: tiles.subrange(first, k), ..before },
            )
        }),
    decreases k,
{
    let before = take_tiles(layout, start, tiles.take(first))->Next_0;
    if k == first {
        assert(tiles.subrange(first, first) =~= before.batch);
    } else {
        lemma_waiting(layout, start, tiles, first, k - 1);
        assert(tiles.take(k).drop_last() =~= tiles.take(k - 1));
        assert(tiles.subrange(first, k - 1).push(tiles[k - 1]) =~= tiles.subrange(first, k));
    }
}

/// A batch with a tile that cannot be read.
proof fn lemma_bad_batch(
    layout: Layout,
    ty: int,
    tiles: Seq<Seq<u8>>,
    first: int,
    bad: int,
    upto: int,
    before: Seq<u8>,
    row: Seq<u8>,
)
    requires
        0 <= first <= bad < upto <= tiles.len(),
        0 < layout.config.num_tiles_y,
        tiles_are_good(layout, ty, tiles.take(bad)),
        tile_rows(layout, ty) * layout.stride <= before.len(),
        shows(layout, ty, tiles.take(bad), first, before, row),
        pixels_at(layout, ty, bad, tiles[bad]) is None,
        forall|tx: int| 0 <= tx < upto ==> !oversized(layout, ty, tx, #[trigger] tiles[tx]),
    ensures
        lay_batch(layout, ty, first, tiles.subrange(first, upto), row) == Laid::BadTile,
{
    let batch = tiles.subrange(first, upto);
    assert forall|i: int| 0 <= i < batch.len() implies !oversized(
        layout,
        ty,
        first + i,
        #[trigger] batch[i],
    ) by {
        assert(batch[i] == tiles[first + i]);
    }
    lemma_bad_tiles(layout, ty, tiles, first, bad, upto, before, row);
}

proof fn lemma_bad_tiles(
    layout: Layout,
    ty: int,
    tiles: Seq<Seq<u8>>,
    first: int,
    bad: int,
    upto: int,
    before: Seq<u8>,
    row: Seq<u8>,
)
    requires
        0 <= first <= bad < upto <= tiles.len(),
        tiles_are_good(layout, ty, tiles.take(bad)),
        tile_rows(layout, ty) * layout.stride <= before.len(),
        shows(layout, ty, tiles.take(bad), first, before, row),
        pixels_at(layout, ty, bad, tiles[bad]) is None,
    ensures
        lay_tiles(layout, ty, first, tiles.subrange(first, upto), row) == Laid::BadTile,
    decreases upto,
{
    let some = tiles.subrange(first, upto);
    if upto == bad + 1 {
        let good = tiles.take(bad);
        let laid = lemma_some_more(layout, ty, good, first, bad - first, before, row);
        assert(some.drop_last() =~= good.subrange(first, bad));
        assert(some.last() == tiles[bad]);
    } else {
        lemma_bad_tiles(layout, ty, tiles, first, bad, upto - 1, before, row);
        assert(some.drop_last() =~= tiles.subrange(first, upto - 1));
    }
}

/// The chunks of tiles are taken in one after the other, and what follows them is then read.
pub proof fn tile_chunks_are_taken_in(
    layout: Layout,
    state: Progress,
    tiles: Seq<Seq<u8>>,
    rest: Seq<u8>,
)
    requires
        forall|k: int| 0 <= k < tiles.len() ==> (#[trigger] tiles[k]).len() <= u32::MAX,
        take_tiles(layout, state, tiles) is Next,
    ensures
        read_tiles(layout, state, tiles_bytes(tiles) + rest) == read_tiles(
            layout,
            take_tiles(layout, state, tiles)->Next_0,
            rest,
        ),
    decreases tiles.len(),
{
    if tiles.len() == 0 {
        assert(tiles_bytes(tiles) + rest =~= rest);
    } else {
        let fewer = tiles.drop_last();
        let tile = tiles.last();
        assert forall|k: int| 0 <= k < fewer.len() implies (#[trigger] fewer[k]).len()
            <= u32::MAX by {
            assert(tiles[k].len() <= u32::MAX);
        }
        assert(tiles[tiles.len() - 1].len() <= u32::MAX);
        let chunk = chunk_bytes(CHUNK_TDAT@, tile);
        tile_chunks_are_taken_in(layout, state, fewer, chunk + rest);
        assert(tiles_bytes(tiles) + rest =~= tiles_bytes(fewer) + (chunk + rest));
        split_undoes_chunk(CHUNK_TDAT@, tile, rest);
    }
}

/// The end chunk ends the run with code 0; what follows it is left over.
pub proof fn end_chunk_ends_the_run(layout: Layout, state: Progress, data: Seq<u8>, rest: Seq<u8>)
    requires
        data.len() <= u32::MAX,
    ensures
        ({
            let run = read_tiles(
                layout,
                state,
                chunk_bytes(seq![0x49u8, 0x45, 0x4e, 0x44], data) + rest,
            );
            &&& run.rows == state.rows
            &&& run.rest == rest
            &&& run.starved is None
            &&& run.end == Ok::<i32, TngFault>(0)
        }),
{
    crate::format::names_and_codes();
    split_undoes_chunk(CHUNK_IEND@, data, rest);
    lemma_end_chunk(layout, state, chunk_bytes(CHUNK_IEND@, data) + rest, data, rest);
}

proof fn lemma_end_chunk(
    layout: Layout,
    state: Progress,
    input: Seq<u8>,
    data: Seq<u8>,
    rest: Seq<u8>,
)
    requires
        split_chunk(input) == (ChunkRead::Whole { tag: CHUNK_IEND@, data, rest }),
    ensures
        ({
            let run = read_tiles(layout, state, input);
            &&& run.rows == state.rows
            &&& run.rest == rest
            &&& run.starved is None
            &&& run.end == Ok::<i32, TngFault>(0)
        }),
{
    assert(CHUNK_IEND@[0] != CHUNK_TDAT@[0]);
}

/// Among the tiles, input that ends before a chunk does ends the run with code 0, whatever the
/// chunk is: nothing more is written, and the last read is for the part that is missing.
pub proof fn missing_bytes_end_the_run(
    layout: Layout,
    state: Progress,
    tag: Seq<u8>,
    data: Seq<u8>,
    len: int,
)
    requires
        tag.len() == 4,
        data.len() <= u32::MAX,
        0 <= len < data.len() + 12,
    ensures
        ({
            let run = read_tiles(layout, state, chunk_bytes(tag, data).take(len));
            &&& run.rows == state.rows
            &&& run.end == Ok::<i32, TngFault>(0)
            &&& run.starved == Some(
                if 8 <= len < 8 + data.len() {
                    data.len()
                } else {
                    4
                },
            )
        }),
{
    crate::chunk::cut_is_noticed_in_its_part(tag, data, len);
}

/// An image header among the headers tells the decoder what the image is, in place of what it
/// knew: its width, its height, the bits of a sample and the colour type, and with them the
/// bytes of a pixel. What it knew of the tile grid stays.
pub proof fn image_header_is_taken_in(decoder: TngDecoder, data: Seq<u8>, rest: Seq<u8>)
    requires
        10 <= data.len() <= u32::MAX,
    ensures
        read_headers(decoder, chunk_bytes(seq![0x49u8, 0x48, 0x44, 0x52], data) + rest)
            == read_headers(
            TngDecoder {
                info: Some(
                    TngImageInfo {
                        width: number_at(data, 0) as u32,
                        height: number_at(data, 4) as u32,
                        bit_depth: data[8],
                        color_type: data[9],
                    },
                ),
                config: decoder.config,
                bytes_per_pixel: pixel_bytes(data[9], data[8]) as usize,
            },
            rest,
        ),
{
    crate::format::names_and_codes();
    crate::placement::image_header_is_read_by_fields(data);
    split_undoes_chunk(CHUNK_IHDR@, data, rest);
    lemma_image_header(decoder, chunk_bytes(CHUNK_IHDR@, data) + rest, data, rest);
}

proof fn lemma_image_header(decoder: TngDecoder, input: Seq<u8>, data: Seq<u8>, rest: Seq<u8>)
    requires
        split_chunk(input) == (ChunkRead::Whole { tag: CHUNK_IHDR@, data, rest }),
        data.len() >= 10,
    ensures
        read_headers(decoder, input) == read_headers(
            TngDecoder {
                info: Some(info_in(data)),
                bytes_per_pixel: pixel_bytes(
                    info_in(data).color_type,
                    info_in(data).bit_depth,
                ) as usize,
                config: decoder.config,
            },
            rest,
        ),
{
}

/// A tile grid header ends the headers: it tells the decoder how the image is cut into tiles,
/// and what the decoder knows of the image stays.
pub proof fn grid_header_ends_the_headers(decoder: TngDecoder, data: Seq<u8>, rest: Seq<u8>)
    requires
        24 <= data.len() <= u32::MAX,
    ensures
        read_headers(decoder, chunk_bytes(seq![0x54u8, 0x48, 0x44, 0x52], data) + rest) == (
        Headers::Read {
            decoder: TngDecoder {
                info: decoder.info,
                config: Some(
                    TngTileConfig {
                        num_tiles_x: number_at(data, 0) as u32,
                        num_tiles_y: number_at(data, 4) as u32,
                        tile_width: number_at(data, 8) as u32,
                        tile_height: number_at(data, 12) as u32,
                        edge_width: number_at(data, 16) as u32,
                        edge_height: number_at(data, 20) as u32,
                        threads: 1,
                        compression_algo: 0,
                        filter_algo: 0,
                    },
                ),
                bytes_per_pixel: decoder.bytes_per_pixel,
            },
            rest,
        }),
{
    crate::format::names_and_codes();
    crate::placement::grid_header_is_read_by_fields(data);
    split_undoes_chunk(CHUNK_THDR@, data, rest);
    lemma_grid_header(decoder, chunk_bytes(CHUNK_THDR@, data) + rest, data, rest);
}

proof fn lemma_grid_header(decoder: TngDecoder, input: Seq<u8>, data: Seq<u8>, rest: Seq<u8>)
    requires
        split_chunk(input) == (ChunkRead::Whole { tag: CHUNK_THDR@, data, rest }),
        data.len() >= 24,
    ensures
        read_headers(decoder, input) == (Headers::Read {
            decoder: TngDecoder {
                info: decoder.info,
                config: Some(config_in(data)),
                bytes_per_pixel: decoder.bytes_per_pixel,
            },
            rest,
        }),
{
    assert(CHUNK_THDR@[0] != CHUNK_IHDR@[0]);
}

/// Among the headers, input that ends before a chunk does ends the run: with code -3 in the
/// length of the chunk, -4 in its type, -5 in its data and -6 in its checksum. The decoder
/// keeps what it knew, and nothing is written.
pub proof fn missing_bytes_end_the_headers(
    decoder: TngDecoder,
    tag: Seq<u8>,
    data: Seq<u8>,
    len: int,
)
    requires
        tag.len() == 4,
        data.len() <= u32::MAX,
        0 <= len < data.len() + 12,
    ensures
        read_headers(decoder, chunk_bytes(tag, data).take(len)) matches Headers::Ended {
            decoder: after,
            run,
        } && {
            &&& after == decoder
            &&& run.rows.len() == 0
            &&& run.end == Ok::<i32, TngFault>(
                if len < 4 {
                    -3i32
                } else if len < 8 {
                    -4i32
                } else if len < 8 + data.len() {
                    -5i32
                } else {
                    -6i32
                },
            )
            &&& run.starved == Some(
                if 8 <= len < 8 + data.len() {
                    data.len()
                } else {
                    4
                },
            )
        },
{
    crate::chunk::cut_is_noticed_in_its_part(tag, data, len);
}

/// An image can be handled where a row of its pixels, a row of its tiles and a tile have sizes
/// that a buffer can have, and its rows are then as long as the width of the image times the
/// bytes of a pixel.
pub proof fn layout_has_the_sizes_of_the_image(
    info: TngImageInfo,
    config: TngTileConfig,
    bpp: usize,
)
    ensures
        layout_of(info, config, bpp) is Some <==> {
            &&& info.width * bpp <= usize::MAX
            &&& config.tile_height * (info.width * bpp) <= isize::MAX
            &&& config.tile_width * config.tile_height <= usize::MAX
            &&& config.tile_width * config.tile_height * bpp <= isize::MAX
        },
        layout_of(info, config, bpp) matches Some(layout) ==> {
            &&& layout.config == config
            &&& layout.stride == info.width * bpp
            &&& layout.bpp == bpp
        },
{
}

/// Before the first tile a decoder is at the first column of the first row of tiles, with a row
/// of zeros.
pub proof fn first_row_starts_with_zeros(layout: Layout)
    ensures
        ({
            let state = no_tiles_yet(layout);
            &&& state.tx == 0 && state.ty == 0
            &&& state.batch.len() == 0 && state.rows.len() == 0
            &&& layout.row_len() >= 0 ==> state.row.len() == layout.config.tile_height
                * layout.stride
            &&& forall|i: int| 0 <= i < state.row.len() ==> #[trigger] state.row[i] == 0
        }),
{
}

/// After the headers the tiles are decoded: with the image and the grid that the headers told,
/// and from the first row of tiles on.
pub proof fn tiles_follow_the_headers(decoder: TngDecoder, input: Seq<u8>)
    requires
        input.len() >= 8,
        input.subrange(0, 8) == seq![0x89u8, 0x54, 0x4e, 0x47, 0x0d, 0x0a, 0x1a, 0x0a],
    ensures
        read_headers(decoder, input.subrange(8, input.len() as int)) matches Headers::Read {
            decoder: seen,
            rest,
        } ==> {
            let (after, run) = decode(decoder, input);
            &&& after == seen
            &&& seen.info is None ==> run.end == Ok::<i32, TngFault>(-9i32) && run.rows.len() == 0
            &&& seen.info matches Some(info) ==> seen.config matches Some(config) ==> {
                &&& layout_of(info, config, seen.bytes_per_pixel) matches Some(layout) ==> run
                    == read_tiles(layout, no_tiles_yet(layout), rest)
                &&& layout_of(info, config, seen.bytes_per_pixel) is None ==> run.end == Err::<
                    i32,
                    TngFault,
                >(TngFault::Malformed) && run.rows.len() == 0
            }
        },
        read_headers(decoder, input.subrange(8, input.len() as int)) matches Headers::Ended {
            decoder: seen,
            run,
        } ==> decode(decoder, input) == (seen, run),
{
    crate::format::names_and_codes();
    assert(input.subrange(0, 8) =~= input.take(8));
    assert(input.subrange(8, input.len() as int) =~= input.skip(8));
}

/// A tile is too large for the buffers exactly where its bytes are more than those of a tile of
/// full size, or where they cannot be counted. A payload that lacks its codes is not looked at.
pub proof fn tiles_may_be_as_large_as_a_full_one(
    layout: Layout,
    ty: int,
    tx: int,
    payload: Seq<u8>,
)
    ensures
        oversized(layout, ty, tx, payload) <==> payload.len() >= 2 && {
            let width = layout.config.width_of(tx);
            let rows = tile_rows(layout, ty);
            ||| width * rows > usize::MAX
            ||| width * rows * layout.bpp > layout.config.tile_width * layout.config.tile_height
                * layout.bpp
            ||| payload[1] < 16 && width * layout.bpp > usize::MAX
        },
        tx >= 0 ==> layout.config.width_of(tx) == if tx + 1 == layout.config.num_tiles_x {
            layout.config.edge_width as int
        } else {
            layout.config.tile_width as int
        },
{
}

/// A tile is laid into a row run by run, each run one row of pixels after the one before it. It
/// has no place exactly where its last run ends after the end of the row; a tile without rows
/// of pixels always has one, and changes nothing. A tile that cannot be read is not laid.
pub proof fn tile_is_laid_run_by_run(
    layout: Layout,
    ty: int,
    tx: int,
    payload: Seq<u8>,
    row: Seq<u8>,
)
    requires
        0 <= tx,
    ensures
        ({
            let laid = lay_tile(layout, ty, tx, payload, row);
            let rows = tile_rows(layout, ty);
            let start = tile_start(layout, tx);
            let run = tile_run(layout, tx);
            &&& pixels_at(layout, ty, tx, payload) is None ==> laid == Laid::BadTile
            &&& pixels_at(layout, ty, tx, payload) matches Some(pixels) ==> {
                let beyond = rows > 0 && (rows - 1) * layout.stride + start + run > row.len();
                &&& beyond ==> laid == Laid::Misfit
                &&& !beyond ==> laid == Laid::Row(
                    paste(row, pixels, layout.stride as int, start, run, rows as nat),
                )
                &&& rows == 0 ==> laid == Laid::Row(row)
            }
        }),
{
}

/// Tiles are laid into a row one after the other, and the first that cannot be laid decides.
pub proof fn tiles_are_laid_in_turn(
    layout: Layout,
    ty: int,
    first: int,
    tiles: Seq<Seq<u8>>,
    tile: Seq<u8>,
    row: Seq<u8>,
)
    ensures
        lay_tiles(layout, ty, first, Seq::empty(), row) == Laid::Row(row),
        lay_tiles(layout, ty, first, tiles.push(tile), row) == (match lay_tiles(
            layout,
            ty,
            first,
            tiles,
            row,
        ) {
            Laid::Row(so_far) => lay_tile(layout, ty, first + tiles.len(), tile, so_far),
            stopped => stopped,
        }),
{
    assert(tiles.push(tile).drop_last() =~= tiles);
}

/// A tile waits until four tiles do or it is the last of its row; then those that wait are laid
/// into the row, from the column of the first of them on. A tile that cannot be read ends the
/// run with code -12, and one without a place ends it with a fault. A row that is complete is
/// written as far as its tiles are high, and the next row of tiles comes next.
pub proof fn tiles_wait_for_three_more(layout: Layout, state: Progress, payload: Seq<u8>)
    requires
        0 < layout.config.num_tiles_x,
        0 < layout.config.num_tiles_y,
        state.batch.len() <= 3,
        state.tx < layout.config.num_tiles_x,
        state.ty < u32::MAX,
    ensures
        ({
            let step = take_tile(layout, state, payload);
            let tiles = state.batch.push(payload);
            let first = state.tx - state.batch.len();
            let last = state.tx + 1 == layout.config.num_tiles_x;
            let len = tile_rows(layout, state.ty) * layout.stride;
            let laid = lay_tiles(layout, state.ty, first, tiles, state.row);
            let fits = forall|i: int|
                0 <= i < tiles.len() ==> !oversized(
                    layout,
                    state.ty,
                    first + i,
                    #[trigger] tiles[i],
                );
            &&& state.batch.len() < 3 && !last ==> step == Step::Next(
                Progress {
                    tx: state.tx + 1,
                    ty: state.ty,
                    batch: tiles,
                    row: state.row,
                    rows: state.rows,
                },
            )
            &&& state.batch.len() == 3 || last ==> {
                &&& !fits || laid is Misfit ==> step == (Step::Stop {
                    rows: state.rows,
                    end: Err(TngFault::Malformed),
                })
                &&& fits && laid is BadTile ==> step == (Step::Stop {
                    rows: state.rows,
                    end: Ok(-12i32),
                })
                &&& fits && !last ==> (laid matches Laid::Row(row) ==> step == Step::Next(
                    Progress {
                        tx: state.tx + 1,
                        ty: state.ty,
                        batch: Seq::empty(),
                        row,
                        rows: state.rows,
                    },
                ))
                &&& fits && last ==> (laid matches Laid::Row(row) ==> len <= row.len() ==> step
                    == Step::Next(
                    Progress {
                        tx: 0,
                        ty: state.ty + 1,
                        batch: Seq::empty(),
                        row,
                        rows: state.rows.push(row.take(len)),
                    },
                ))
            }
        }),
{
    let tiles = state.batch.push(payload);
    let first = state.tx - state.batch.len();
    assert(state.tx + 1 - tiles.len() == first);
    assert(batch_fits(layout, state.ty, first, tiles) <==> forall|i: int|
        0 <= i < tiles.len() ==> !oversized(layout, state.ty, first + i, #[trigger] tiles[i]));
}

} // verus!
