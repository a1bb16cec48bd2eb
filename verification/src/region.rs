//! Rectangles cut out of and pasted into bands of pixel rows.

use crate::bytes::{append, copy_bytes, splice};
use crate::filter::lemma_position;
use vstd::prelude::*;

verus! {

/// The `rows` runs of `run` bytes that start `offset` bytes into each row of a band
/// whose rows are `stride` bytes long.
pub open spec fn cut(band: Seq<u8>, stride: int, offset: int, run: int, rows: int) -> Seq<u8> {
    Seq::new((rows * run) as nat, |i: int| band[(i / run) * stride + offset + i % run])
}

/// `band` after the first `rows` runs of `tile` were laid over it, run `y` at `offset`
/// bytes into row `y`.
pub open spec fn paste(
    band: Seq<u8>,
    tile: Seq<u8>,
    stride: int,
    offset: int,
    run: int,
    rows: nat,
) -> Seq<u8>
    decreases rows,
{
    if rows == 0 {
        band
    } else {
        let y = rows - 1;
        splice(
            paste(band, tile, stride, offset, run, y as nat),
            y * stride + offset,
            tile.subrange(y * run, y * run + run),
        )
    }
}

/// Cuts a rectangle out of a band.
pub fn cut_region(band: &[u8], stride: usize, offset: usize, run: usize, rows: usize) -> (tile: Vec<
    u8,
>)
    requires
        rows * stride <= band@.len(),
        rows > 0 ==> offset + run <= stride,
    ensures
        tile@ == cut(band@, stride as int, offset as int, run as int, rows as int),
{
    let mut tile: Vec<u8> = Vec::new();
    let ghost s = stride as int;
    let ghost o = offset as int;
    let ghost r = run as int;
    let mut y: usize = 0;
    assert(tile@ =~= cut(band@, s, o, r, 0));
    while y < rows
        invariant
            y <= rows,
            s == stride,
            o == offset,
            r == run,
            rows * stride <= band.len(),
            rows > 0 ==> offset + run <= stride,
            tile@ == cut(band@, s, o, r, y as int),
        decreases rows - y,
    {
        proof {
            assert(0 <= y * s && y * s + s <= rows * s) by (nonlinear_arith)
                requires
                    0 <= y < rows,
                    0 <= s,
            ;
        }
        let src_offset: usize = y * stride + offset;
        append(&mut tile, vstd::slice::slice_subrange(band, src_offset, src_offset + run));
        proof {
            let piece = band@.subrange(src_offset as int, src_offset + run);
            assert((y + 1) * r == y * r + r && y * r >= 0) by (nonlinear_arith)
                requires
                    y >= 0,
                    r >= 0,
            ;
            let old_tile = cut(band@, s, o, r, y as int);
            let new_tile = cut(band@, s, o, r, y + 1);
            assert(old_tile + piece =~= new_tile) by {
                assert forall|i: int| 0 <= i < new_tile.len() implies (old_tile + piece)[i]
                    == new_tile[i] by {
                    if i >= y * r {
                        lemma_position(y as int, i - y * r, r, y + 1);
                    }
                }
            }
        }
        y += 1;
    }
    tile
}

/// Pasting keeps the length of the band.
pub proof fn lemma_paste_len(
    band: Seq<u8>,
    tile: Seq<u8>,
    stride: int,
    offset: int,
    run: int,
    rows: nat,
)
    ensures
        paste(band, tile, stride, offset, run, rows).len() == band.len(),
    decreases rows,
{
    if rows > 0 {
        lemma_paste_len(band, tile, stride, offset, run, (rows - 1) as nat);
    }
}

/// Where a pasted rectangle shows, and where the band does.
pub proof fn lemma_paste_index(
    band: Seq<u8>,
    tile: Seq<u8>,
    stride: int,
    offset: int,
    run: int,
    rows: nat,
    i: int,
)
    requires
        0 < stride,
        0 <= offset,
        0 <= run,
        offset + run <= stride,
        rows * run <= tile.len(),
        0 <= i < band.len(),
    ensures
        paste(band, tile, stride, offset, run, rows)[i] == (if i / stride < rows && offset <= i
            % stride < offset + run {
            tile[(i / stride) * run + (i % stride - offset)]
        } else {
            band[i]
        }),
    decreases rows,
{
    let y = i / stride;
    let x = i % stride;
    assert(0 <= y && 0 <= x < stride && i == y * stride + x) by (nonlinear_arith)
        requires
            0 <= i,
            0 < stride,
            y == i / stride,
            x == i % stride,
    ;
    if rows > 0 {
        let last = rows - 1;
        assert(last * run + run == rows * run && 0 <= last * run) by (nonlinear_arith)
            requires
                last == rows - 1,
                0 <= last,
                0 <= run,
        ;
        lemma_paste_index(band, tile, stride, offset, run, last as nat, i);
        lemma_paste_len(band, tile, stride, offset, run, last as nat);
        let at = last * stride + offset;
        if at <= i < at + run {
            assert(y == last) by (nonlinear_arith)
                requires
                    i == y * stride + x,
                    0 <= x < stride,
                    last * stride + offset <= i < last * stride + offset + run,
                    0 <= offset,
                    offset + run <= stride,
            ;
        } else if y == last {
            assert(!(offset <= x < offset + run));
        }
    }
}

/// Pasting back what was cut out of another band copies that part of it.
pub proof fn lemma_paste_cut_index(
    band: Seq<u8>,
    source: Seq<u8>,
    stride: int,
    offset: int,
    run: int,
    rows: nat,
    i: int,
)
    requires
        0 < stride,
        0 <= offset,
        0 <= run,
        offset + run <= stride,
        0 <= i < band.len(),
    ensures
        paste(band, cut(source, stride, offset, run, rows as int), stride, offset, run, rows)[i]
            == (if i / stride < rows && offset <= i % stride < offset + run {
            source[i]
        } else {
            band[i]
        }),
{
    let tile = cut(source, stride, offset, run, rows as int);
    assert(0 <= rows * run) by (nonlinear_arith)
        requires
            0 <= run,
    ;
    lemma_paste_index(band, tile, stride, offset, run, rows, i);
    let y = i / stride;
    let x = i % stride;
    if y < rows && offset <= x < offset + run {
        assert(0 <= y && i == y * stride + x) by (nonlinear_arith)
            requires
                0 <= i,
                0 < stride,
                y == i / stride,
                x == i % stride,
        ;
        lemma_position(y, x - offset, run, rows as int);
    }
}

/// Pastes a rectangle into a band.
pub fn paste_region(
    band: &mut [u8],
    tile: &[u8],
    stride: usize,
    offset: usize,
    run: usize,
    rows: usize,
)
    requires
        rows > 0 ==> (rows - 1) * stride + offset + run <= old(band)@.len(),
        rows * run <= tile@.len(),
    ensures
        final(band)@ == paste(
            old(band)@,
            tile@,
            stride as int,
            offset as int,
            run as int,
            rows as nat,
        ),
{
    let ghost before = band@;
    let ghost s = stride as int;
    let ghost o = offset as int;
    let ghost r = run as int;
    let mut y: usize = 0;
    while y < rows
        invariant
            y <= rows,
            s == stride,
            o == offset,
            r == run,
            band@.len() == before.len(),
            rows > 0 ==> (rows - 1) * stride + offset + run <= band.len(),
            rows * run <= tile.len(),
            band@ == paste(before, tile@, s, o, r, y as nat),
        decreases rows - y,
    {
        proof {
            assert(0 <= y * s <= (rows - 1) * s) by (nonlinear_arith)
                requires
                    0 <= y <= rows - 1,
                    0 <= s,
            ;
            assert(0 <= y * r && y * r + r <= rows * r) by (nonlinear_arith)
                requires
                    0 <= y < rows,
                    0 <= r,
            ;
            lemma_paste_len(before, tile@, s, o, r, (y + 1) as nat);
        }
        let dest_offset: usize = y * stride + offset;
        let src_offset: usize = y * run;
        copy_bytes(band, dest_offset, tile, src_offset, run);
        y += 1;
    }
}

/// Byte `x` of run `y` of a rectangle stands `offset + x` bytes into row `y` of the band that it
/// was cut out of.
pub proof fn cut_takes_the_rectangle(
    band: Seq<u8>,
    stride: int,
    offset: int,
    run: int,
    rows: int,
    y: int,
    x: int,
)
    requires
        0 <= y < rows,
        0 <= x < run,
    ensures
        cut(band, stride, offset, run, rows).len() == rows * run,
        0 <= y * run + x < rows * run,
        cut(band, stride, offset, run, rows)[y * run + x] == band[y * stride + offset + x],
{
    lemma_position(y, x, run, rows);
}

/// Runs are laid over a band one after the other, and a later one covers an earlier one: byte
/// `x` of run `y` shows `offset + x` bytes after the start of row `y`, unless the next run
/// starts there or before.
pub proof fn paste_shows_each_run(
    band: Seq<u8>,
    tile: Seq<u8>,
    stride: int,
    offset: int,
    run: int,
    rows: nat,
    y: int,
    x: int,
)
    requires
        0 <= stride,
        0 <= offset,
        0 <= y < rows,
        0 <= x < run,
        rows * run <= tile.len(),
        (rows - 1) * stride + offset + run <= band.len(),
        y + 1 == rows || x < stride,
    ensures
        paste(band, tile, stride, offset, run, rows)[y * stride + offset + x] == tile[y * run + x],
    decreases rows,
{
    let last = rows - 1;
    let at = last * stride + offset;
    let p = y * stride + offset + x;
    lemma_paste_len(band, tile, stride, offset, run, last as nat);
    assert(last * run + run == rows * run && 0 <= last * run) by (nonlinear_arith)
        requires
            last == rows - 1,
            0 <= last,
            0 <= run,
    ;
    assert(0 <= y * stride <= last * stride) by (nonlinear_arith)
        requires
            0 <= y <= last,
            0 <= stride,
    ;
    if y < last {
        assert((last - 1) * stride <= last * stride) by (nonlinear_arith)
            requires
                0 <= stride,
        ;
        assert(y * stride + stride <= last * stride) by (nonlinear_arith)
            requires
                y + 1 <= last,
                0 <= stride,
        ;
        paste_shows_each_run(band, tile, stride, offset, run, last as nat, y, x);
    }
}

/// Bytes of the band that no run covers stay as they are.
pub proof fn paste_leaves_the_rest(
    band: Seq<u8>,
    tile: Seq<u8>,
    stride: int,
    offset: int,
    run: int,
    rows: nat,
    p: int,
)
    requires
        0 <= run,
        rows * run <= tile.len(),
        0 <= p < band.len(),
        forall|y: int|
            0 <= y < rows ==> !(#[trigger] (y * stride) + offset <= p < y * stride + offset + run),
    ensures
        paste(band, tile, stride, offset, run, rows)[p] == band[p],
    decreases rows,
{
    if rows > 0 {
        let last = rows - 1;
        assert(last * run + run == rows * run && 0 <= last * run) by (nonlinear_arith)
            requires
                last == rows - 1,
                0 <= last,
                0 <= run,
        ;
        assert(!(last * stride + offset <= p < last * stride + offset + run));
        lemma_paste_len(band, tile, stride, offset, run, last as nat);
        paste_leaves_the_rest(band, tile, stride, offset, run, last as nat, p);
    }
}

} // verus!
