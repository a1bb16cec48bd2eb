//! The prediction filters that a tile goes through before it is compressed.

use vstd::arithmetic::div_mod::{lemma_fundamental_div_mod_converse, lemma_mod_bound};
use vstd::prelude::*;

verus! {

pub const FILT_NONE: u8 = 0x00;

pub const FILT_SUB: u8 = 0x01;

pub const FILT_UP: u8 = 0x02;

pub const FILT_AVG: u8 = 0x03;

pub const FILT_PAETH: u8 = 0x04;

/// Reserved; bytes are stored as they are.
pub const FILT_FFV1: u8 = 0x10;

/// The distance between two numbers.
pub open spec fn distance(x: int, y: int) -> int {
    if x <= y {
        y - x
    } else {
        x - y
    }
}

/// Which of `a` (left), `b` (up) and `c` (up left) is nearest to `a + b - c`; on a tie
/// the earlier one.
pub open spec fn paeth(a: u8, b: u8, c: u8) -> u8 {
    let p = a + b - c;
    let pa = distance(p, a as int);
    let pb = distance(p, b as int);
    let pc = distance(p, c as int);
    if pa <= pb && pa <= pc {
        a
    } else if pb <= pc {
        b
    } else {
        c
    }
}

/// The Paeth predictor.
pub fn paeth_predictor(a: u8, b: u8, c: u8) -> (nearest: u8)
    ensures
        nearest == paeth(a, b, c),
{
    let p: i32 = a as i32 + b as i32 - c as i32;
    let pa: i32 = if p >= a as i32 { p - a as i32 } else { a as i32 - p };
    let pb: i32 = if p >= b as i32 { p - b as i32 } else { b as i32 - p };
    let pc: i32 = if p >= c as i32 { p - c as i32 } else { c as i32 - p };
    if pa <= pb && pa <= pc {
        a
    } else if pb <= pc {
        b
    } else {
        c
    }
}

/// What `filter` predicts for a byte from the bytes around it. Unknown filters predict
/// zero.
pub open spec fn prediction(filter: u8, left: u8, up: u8, up_left: u8) -> u8 {
    if filter == FILT_SUB {
        left
    } else if filter == FILT_UP {
        up
    } else if filter == FILT_AVG {
        ((left + up) / 2) as u8
    } else if filter == FILT_PAETH {
        paeth(left, up, up_left)
    } else {
        0
    }
}

/// The byte one pixel to the left of byte `i`, or zero in the first pixel of a row.
pub open spec fn left_of(bytes: Seq<u8>, i: int, stride: int, bpp: int) -> u8 {
    if i % stride >= bpp {
        bytes[i - bpp]
    } else {
        0
    }
}

/// The byte above byte `i`, or zero in the first row.
pub open spec fn above(bytes: Seq<u8>, i: int, stride: int) -> u8 {
    if i >= stride {
        bytes[i - stride]
    } else {
        0
    }
}

/// The byte above and one pixel to the left of byte `i`, or zero at the upper or left
/// edge.
pub open spec fn above_left_of(bytes: Seq<u8>, i: int, stride: int, bpp: int) -> u8 {
    if i >= stride && i % stride >= bpp {
        bytes[i - stride - bpp]
    } else {
        0
    }
}

/// The prediction for byte `i` of rows of `stride` bytes.
pub open spec fn predicted(bytes: Seq<u8>, i: int, stride: int, bpp: int, filter: u8) -> u8 {
    prediction(
        filter,
        left_of(bytes, i, stride, bpp),
        above(bytes, i, stride),
        above_left_of(bytes, i, stride, bpp),
    )
}

/// `a - b` modulo 256.
pub open spec fn byte_minus(a: u8, b: u8) -> u8 {
    ((a - b) % 256) as u8
}

/// `a + b` modulo 256.
pub open spec fn byte_plus(a: u8, b: u8) -> u8 {
    ((a + b) % 256) as u8
}

/// The filtered form of `src`: in the first `count` bytes the difference to the
/// prediction, zeros after them.
pub open spec fn filtered(src: Seq<u8>, count: int, stride: int, bpp: int, filter: u8) -> Seq<u8> {
    Seq::new(
        src.len(),
        |i: int|
            if i < count {
                byte_minus(src[i], predicted(src, i, stride, bpp, filter))
            } else {
                0
            },
    )
}

/// The first `count` bytes whose filtered form is `data`, each found from those before
/// it.
pub open spec fn unfiltered(data: Seq<u8>, count: nat, stride: int, bpp: int, filter: u8) -> Seq<u8>
    decreases count,
{
    if count == 0 {
        Seq::empty()
    } else {
        let before = unfiltered(data, (count - 1) as nat, stride, bpp, filter);
        before.push(
            byte_plus(data[count - 1], predicted(before, count - 1, stride, bpp, filter)),
        )
    }
}

/// As many bytes come out as were asked for.
pub proof fn lemma_unfiltered_len(data: Seq<u8>, count: nat, stride: int, bpp: int, filter: u8)
    ensures
        unfiltered(data, count, stride, bpp, filter).len() == count,
    decreases count,
{
    if count > 0 {
        lemma_unfiltered_len(data, (count - 1) as nat, stride, bpp, filter);
    }
}

/// The prediction for byte `i` reads bytes before `i` only.
proof fn lemma_predicted_reads_before(
    a: Seq<u8>,
    b: Seq<u8>,
    i: int,
    stride: int,
    bpp: int,
    filter: u8,
)
    requires
        0 <= i,
        1 <= bpp,
        1 <= stride,
        forall|j: int| 0 <= j < i ==> a[j] == b[j],
    ensures
        predicted(a, i, stride, bpp, filter) == predicted(b, i, stride, bpp, filter),
{
    let y = i / stride;
    let x = i % stride;
    vstd::arithmetic::div_mod::lemma_fundamental_div_mod(i, stride);
    lemma_mod_bound(i, stride);
    vstd::arithmetic::div_mod::lemma_div_pos_is_pos(i, stride);
    assert(i == y * stride + x) by (nonlinear_arith)
        requires
            i == stride * y + x,
    ;
    assert(y >= 0);
    assert(y * stride >= 0) by (nonlinear_arith)
        requires
            y >= 0,
            stride >= 1,
    ;
    if i >= stride {
        assert(y >= 1) by (nonlinear_arith)
            requires
                i == y * stride + x,
                i >= stride,
                x < stride,
                stride >= 1,
        ;
        assert(y * stride >= stride) by (nonlinear_arith)
            requires
                y >= 1,
                stride >= 1,
        ;
    }
}

/// Unfiltering fewer bytes gives the same bytes.
proof fn lemma_unfiltered_take(
    data: Seq<u8>,
    part: nat,
    count: nat,
    stride: int,
    bpp: int,
    filter: u8,
)
    requires
        part <= count,
    ensures
        unfiltered(data, count, stride, bpp, filter).take(part as int) == unfiltered(
            data,
            part,
            stride,
            bpp,
            filter,
        ),
    decreases count,
{
    let all = unfiltered(data, count, stride, bpp, filter);
    lemma_unfiltered_len(data, count, stride, bpp, filter);
    if part == count {
        assert(all.take(part as int) =~= all);
    } else {
        let before = unfiltered(data, (count - 1) as nat, stride, bpp, filter);
        lemma_unfiltered_len(data, (count - 1) as nat, stride, bpp, filter);
        lemma_unfiltered_take(data, part, (count - 1) as nat, stride, bpp, filter);
        assert(all.take(part as int) =~= before.take(part as int));
    }
}

/// Filtering undoes unfiltering: for every filter, what was unfiltered is filtered to the
/// bytes it came from.
pub proof fn filter_undoes_unfilter(data: Seq<u8>, count: nat, stride: int, bpp: int, filter: u8)
    requires
        1 <= bpp,
        1 <= stride,
        count <= data.len(),
    ensures
        filtered(
            unfiltered(data, count, stride, bpp, filter),
            count as int,
            stride,
            bpp,
            filter,
        ) == data.take(count as int),
{
    let src = unfiltered(data, count, stride, bpp, filter);
    lemma_unfiltered_len(data, count, stride, bpp, filter);
    assert forall|i: int| 0 <= i < count implies #[trigger] byte_minus(
        src[i],
        predicted(src, i, stride, bpp, filter),
    ) == data[i] by {
        let before = unfiltered(data, i as nat, stride, bpp, filter);
        lemma_unfiltered_take(data, i as nat, count, stride, bpp, filter);
        lemma_unfiltered_take(data, (i + 1) as nat, count, stride, bpp, filter);
        lemma_unfiltered_len(data, i as nat, stride, bpp, filter);
        lemma_predicted_reads_before(before, src, i, stride, bpp, filter);
        let p = predicted(src, i, stride, bpp, filter);
        assert(src[i] == src.take(i + 1)[i]);
        assert(src[i] == byte_plus(data[i], p));
        lemma_byte_goes_back(data[i], p);
    }
    assert(filtered(src, count as int, stride, bpp, filter) =~= data.take(count as int));
}

/// Subtracting undoes adding.
proof fn lemma_byte_goes_back(a: u8, b: u8)
    ensures
        byte_minus(byte_plus(a, b), b) == a,
{
}

/// Unfiltering undoes filtering: for every filter, the first `count` bytes come back.
pub proof fn unfilter_undoes_filter(src: Seq<u8>, count: nat, stride: int, bpp: int, filter: u8)
    requires
        1 <= bpp,
        1 <= stride,
        count <= src.len(),
    ensures
        unfiltered(filtered(src, count as int, stride, bpp, filter), count, stride, bpp, filter)
            == src.take(count as int),
{
    lemma_unfilter_prefix(src, count as int, count, stride, bpp, filter);
}

proof fn lemma_unfilter_prefix(
    src: Seq<u8>,
    limit: int,
    count: nat,
    stride: int,
    bpp: int,
    filter: u8,
)
    requires
        1 <= bpp,
        1 <= stride,
        count <= limit <= src.len(),
    ensures
        unfiltered(filtered(src, limit, stride, bpp, filter), count, stride, bpp, filter)
            == src.take(count as int),
    decreases count,
{
    let data = filtered(src, limit, stride, bpp, filter);
    if count == 0 {
        assert(src.take(0) =~= Seq::<u8>::empty());
    } else {
        let i = count - 1;
        let before = unfiltered(data, i as nat, stride, bpp, filter);
        let p = predicted(src, i, stride, bpp, filter);
        lemma_unfilter_prefix(src, limit, i as nat, stride, bpp, filter);
        assert(before == src.take(i));
        assert(predicted(before, i, stride, bpp, filter) == p) by {
            lemma_predicted_reads_before(before, src, i, stride, bpp, filter);
        }
        lemma_byte_comes_back(src[i], p);
        assert(data[i] == byte_minus(src[i], p));
        assert(unfiltered(data, count, stride, bpp, filter) == before.push(src[i]));
        assert(src.take(count as int) =~= src.take(i).push(src[i]));
    }
}

/// Adding undoes subtracting.
proof fn lemma_byte_comes_back(a: u8, b: u8)
    ensures
        byte_plus(byte_minus(a, b), b) == a,
{
}

/// Where byte `x` of row `y` stands among rows of `stride` bytes.
pub proof fn lemma_position(y: int, x: int, stride: int, height: int)
    requires
        0 <= y < height,
        0 <= x < stride,
    ensures
        (y * stride + x) % stride == x,
        (y * stride + x) / stride == y,
        0 <= y * stride,
        y * stride + x < height * stride,
        (y + 1) * stride == y * stride + stride,
        y > 0 <==> y * stride + x >= stride,
        y > 0 ==> y * stride >= stride,
{
    lemma_fundamental_div_mod_converse(y * stride + x, stride, y, x);
    assert(0 <= y * stride && (y + 1) * stride <= height * stride && (y + 1) * stride == y * stride
        + stride) by (nonlinear_arith)
        requires
            0 <= y < height,
            0 < stride,
    ;
    if y > 0 {
        assert(y * stride >= stride) by (nonlinear_arith)
            requires
                y > 0,
                stride > 0,
        ;
    }
}

/// The prediction at a position, from bytes that are at hand.
fn predict(filter: u8, left: u8, up: u8, up_left: u8) -> (p: u8)
    ensures
        p == prediction(filter, left, up, up_left),
{
    if filter == FILT_SUB {
        left
    } else if filter == FILT_UP {
        up
    } else if filter == FILT_AVG {
        ((left as u16 + up as u16) / 2) as u8
    } else if filter == FILT_PAETH {
        paeth_predictor(left, up, up_left)
    } else {
        0
    }
}

/// The prediction for byte `x` of row `y`.
fn predict_at(bytes: &[u8], y: usize, x: usize, stride: usize, bpp: usize, filter: u8) -> (p: u8)
    requires
        0 <= x < stride,
        y * stride + x < bytes@.len(),
        1 <= bpp,
    ensures
        p == predicted(bytes@, y * stride + x, stride as int, bpp as int, filter),
{
    proof {
        lemma_position(y as int, x as int, stride as int, y + 1);
    }
    let ghost n = bytes.len();
    let row_start: usize = y * stride;
    let idx: usize = row_start + x;
    let left: u8 = if x >= bpp { bytes[idx - bpp] } else { 0 };
    let up: u8 = if y > 0 { bytes[idx - stride] } else { 0 };
    let up_left: u8 = if y > 0 && x >= bpp { bytes[idx - stride - bpp] } else { 0 };
    predict(filter, left, up, up_left)
}

/// Filters a tile of `height` rows of `width` pixels of `bpp` bytes. Bytes of `src`
/// after the last row come out as zeros.
pub fn apply_png_filter(src: &[u8], width: usize, height: usize, bpp: usize, filter: u8) -> (out:
    Vec<u8>)
    requires
        width * bpp <= usize::MAX,
        height * (width * bpp) <= src@.len(),
    ensures
        out@ == filtered(
            src@,
            height * (width * bpp),
            width * bpp,
            bpp as int,
            filter,
        ),
{
    let stride: usize = width * bpp;
    let mut out: Vec<u8> = crate::bytes::zeros(src.len());
    let mut y: usize = 0;
    assert(out@ =~= filtered(src@, 0, stride as int, bpp as int, filter));
    while y < height
        invariant
            y <= height,
            stride == width * bpp,
            height * stride <= src.len(),
            out@ == filtered(src@, y * stride, stride as int, bpp as int, filter),
        decreases height - y,
    {
        let mut x: usize = 0;
        while x < stride
            invariant
                y < height,
                x <= stride,
                stride == width * bpp,
                height * stride <= src.len(),
                out@ == filtered(src@, y * stride + x, stride as int, bpp as int, filter),
            decreases stride - x,
        {
            proof {
                lemma_position(y as int, x as int, stride as int, height as int);
                assert(bpp >= 1) by (nonlinear_arith)
                    requires
                        0 < width * bpp,
                        bpp >= 0,
                ;
            }
            let p: u8 = predict_at(src, y, x, stride, bpp, filter);
            let idx: usize = y * stride + x;
            out[idx] = src[idx].wrapping_sub(p);
            x += 1;
            assert(out@ =~= filtered(src@, y * stride + x, stride as int, bpp as int, filter));
        }
        assert((y + 1) * stride == y * stride + stride) by (nonlinear_arith);
        y += 1;
    }
    out
}

/// Undoes the filter in place.
pub fn undo_png_filter(bytes: &mut [u8], width: usize, height: usize, bpp: usize, filter: u8)
    requires
        width * bpp <= usize::MAX,
        height * (width * bpp) <= old(bytes)@.len(),
    ensures
        final(bytes)@ == unfiltered(
            old(bytes)@,
            (height * (width * bpp)) as nat,
            width * bpp,
            bpp as int,
            filter,
        ) + old(bytes)@.skip(height * (width * bpp)),
{
    let stride: usize = width * bpp;
    let ghost data = bytes@;
    let ghost s = stride as int;
    let ghost b = bpp as int;
    let mut y: usize = 0;
    assert(bytes@ =~= unfiltered(data, 0, s, b, filter) + data.skip(0));
    while y < height
        invariant
            y <= height,
            stride == width * bpp,
            s == stride,
            b == bpp,
            bytes@.len() == data.len(),
            height * stride <= bytes.len(),
            0 <= y * stride,
            bytes@ == unfiltered(data, (y * stride) as nat, s, b, filter) + data.skip(y * stride),
        decreases height - y,
    {
        let mut x: usize = 0;
        while x < stride
            invariant
                y < height,
                x <= stride,
                stride == width * bpp,
                s == stride,
                b == bpp,
                bytes@.len() == data.len(),
                height * stride <= bytes.len(),
                0 <= y * stride,
                bytes@ == unfiltered(data, (y * stride + x) as nat, s, b, filter) + data.skip(
                    y * stride + x,
                ),
            decreases stride - x,
        {
            proof {
                lemma_position(y as int, x as int, stride as int, height as int);
                assert(bpp >= 1) by (nonlinear_arith)
                    requires
                        0 < width * bpp,
                        bpp >= 0,
                ;
            }
            let p: u8 = predict_at(bytes, y, x, stride, bpp, filter);
            let idx: usize = y * stride + x;
            proof {
                lemma_unfiltered_len(data, idx as nat, s, b, filter);
                lemma_predicted_reads_before(
                    bytes@,
                    unfiltered(data, idx as nat, s, b, filter),
                    idx as int,
                    s,
                    b,
                    filter,
                );
            }
            bytes[idx] = bytes[idx].wrapping_add(p);
            x += 1;
            assert(bytes@ =~= unfiltered(data, (idx + 1) as nat, s, b, filter) + data.skip(idx + 1));
        }
        assert((y + 1) * stride == y * stride + stride) by (nonlinear_arith);
        y += 1;
    }
}

/// How far a byte is from a number.
pub open spec fn off(p: int, byte: u8) -> int {
    if p < byte {
        byte - p
    } else {
        p - byte
    }
}

/// The Paeth predictor takes the neighbour that is nearest to left + up - corner: left before
/// up, and up before the corner, where they are equally near.
pub proof fn paeth_takes_the_nearest(left: u8, up: u8, corner: u8)
    ensures
        ({
            let p = left + up - corner;
            let taken = paeth(left, up, corner);
            &&& taken == left || taken == up || taken == corner
            &&& off(p, taken) <= off(p, left)
            &&& off(p, taken) <= off(p, up)
            &&& off(p, taken) <= off(p, corner)
            &&& off(p, left) == off(p, taken) ==> taken == left
            &&& off(p, left) > off(p, taken) && off(p, up) == off(p, taken) ==> taken == up
        }),
{
}

/// Beside an edge the Paeth predictor follows the edge: with a corner above both neighbours it
/// takes the smaller of them, and with a corner below both the larger.
pub proof fn paeth_follows_edges(left: u8, up: u8, corner: u8)
    ensures
        corner >= left && corner >= up ==> paeth(left, up, corner) <= left && paeth(
            left,
            up,
            corner,
        ) <= up,
        corner <= left && corner <= up ==> paeth(left, up, corner) >= left && paeth(
            left,
            up,
            corner,
        ) >= up,
{
}

/// Whether `stored` is what filter code `filter` stores for `pixel`, whose neighbours are
/// `left`, `up` and `corner`: together with the left byte (1), the byte above (2), half the sum
/// of both, rounded down (3), or the Paeth predictor (4) it makes up the pixel, modulo 256.
/// Other codes store the pixel itself.
pub open spec fn stores(
    filter: u8,
    stored: u8,
    pixel: u8,
    left: u8,
    up: u8,
    corner: u8,
) -> bool {
    &&& filter == 1 ==> (stored + left - pixel) % 256 == 0
    &&& filter == 2 ==> (stored + up - pixel) % 256 == 0
    &&& filter == 3 ==> exists|half: int|
        2 * half <= left + up <= 2 * half + 1 && #[trigger] ((stored + half - pixel) % 256) == 0
    &&& filter == 4 ==> (stored + paeth(left, up, corner) - pixel) % 256 == 0
    &&& filter == 0 || filter > 4 ==> stored == pixel
}

proof fn lemma_stores(filter: u8, pixel: u8, left: u8, up: u8, corner: u8)
    ensures
        stores(
            filter,
            byte_minus(pixel, prediction(filter, left, up, corner)),
            pixel,
            left,
            up,
            corner,
        ),
{
    let p = prediction(filter, left, up, corner);
    let stored = byte_minus(pixel, p);
    assert((stored + p - pixel) % 256 == 0);
    if filter == 3 {
        let half = p as int;
        assert(2 * half <= left + up <= 2 * half + 1);
        assert((stored + half - pixel) % 256 == 0);
    }
}

/// Every byte of a filtered tile is what its filter stores for the byte of the tile there, from
/// the bytes one pixel to the left, one row up, and one row up and one pixel to the left; in
/// the first pixel of a row and in the first row a zero takes the place of those that are
/// missing. Bytes after the last row are stored as zeros.
pub proof fn filtered_byte_by_byte(
    src: Seq<u8>,
    width: int,
    height: int,
    bpp: int,
    filter: u8,
    y: int,
    x: int,
)
    requires
        1 <= bpp,
        0 <= y < height,
        0 <= x < width * bpp,
        height * (width * bpp) <= src.len(),
    ensures
        ({
            let row = width * bpp;
            let out = filtered(src, height * row, row, bpp, filter);
            let at = y * row + x;
            &&& out.len() == src.len()
            &&& 0 <= at < height * row
            &&& stores(
                filter,
                out[at],
                src[at],
                if x >= bpp {
                    src[at - bpp]
                } else {
                    0
                },
                if y >= 1 {
                    src[(y - 1) * row + x]
                } else {
                    0
                },
                if y >= 1 && x >= bpp {
                    src[(y - 1) * row + x - bpp]
                } else {
                    0
                },
            )
            &&& forall|i: int| height * row <= i < src.len() ==> #[trigger] out[i] == 0
        }),
{
    let row = width * bpp;
    let at = y * row + x;
    lemma_position(y, x, row, height);
    assert((y - 1) * row == y * row - row) by (nonlinear_arith);
    lemma_stores(
        filter,
        src[at],
        left_of(src, at, row, bpp),
        above(src, at, row),
        above_left_of(src, at, row, bpp),
    );
}

/// Every byte of a tile that was read is the one for which its filter stores the byte that was
/// there, from the bytes of the tile one pixel to the left, one row up, and one row up and one
/// pixel to the left; in the first pixel of a row and in the first row a zero takes the place
/// of those that are missing.
pub proof fn unfiltered_byte_by_byte(
    data: Seq<u8>,
    width: int,
    height: int,
    bpp: int,
    filter: u8,
    y: int,
    x: int,
)
    requires
        1 <= bpp,
        0 <= y < height,
        0 <= x < width * bpp,
        height * (width * bpp) <= data.len(),
    ensures
        ({
            let row = width * bpp;
            let out = unfiltered(data, (height * row) as nat, row, bpp, filter);
            let at = y * row + x;
            &&& out.len() == height * row
            &&& 0 <= at < height * row
            &&& stores(
                filter,
                data[at],
                out[at],
                if x >= bpp {
                    out[at - bpp]
                } else {
                    0
                },
                if y >= 1 {
                    out[(y - 1) * row + x]
                } else {
                    0
                },
                if y >= 1 && x >= bpp {
                    out[(y - 1) * row + x - bpp]
                } else {
                    0
                },
            )
        }),
{
    let row = width * bpp;
    let at = y * row + x;
    let count = (height * row) as nat;
    let out = unfiltered(data, count, row, bpp, filter);
    lemma_position(y, x, row, height);
    lemma_unfiltered_len(data, count, row, bpp, filter);
    filter_undoes_unfilter(data, count, row, bpp, filter);
    filtered_byte_by_byte(out, width, height, bpp, filter, y, x);
    assert(filtered(out, count as int, row, bpp, filter)[at] == data.take(count as int)[at]);
}

} // verus!
