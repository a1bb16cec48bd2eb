//! The payload of a tile: a compressor code, a filter code and a compressed body.

use crate::bytes::append;
use crate::codec::{
    brotli_decode, brotli_encode, deflate_decode, deflate_encode, xz_decode, xz_encode,
    zstd_decode, zstd_encode, ZstdEnd,
};
use crate::filter::{apply_png_filter, undo_png_filter};
use crate::format::{COMP_BROTLI, COMP_DEFLATE, COMP_LZMA, COMP_ZSTD};
use vstd::prelude::*;

verus! {

/// The zstd level of tile bodies.
pub const ZSTD_LEVEL: i32 = 11;

/// The buffer, quality and window of brotli tile bodies.
pub const BROTLI_BUFFER: usize = 4096;

pub const BROTLI_QUALITY: u32 = 5;

pub const BROTLI_LGWIN: u32 = 22;

/// The xz preset of tile bodies.
pub const XZ_PRESET: u32 = 3;

/// The deflate level of tile bodies.
pub const DEFLATE_LEVEL: u32 = 1;

/// Filter codes from here on leave the bytes as they are.
pub const FILTER_LIMIT: u8 = 0x10;

/// The bytes that are compressed for `data`.
pub open spec fn stored_form(
    data: Seq<u8>,
    width: int,
    height: int,
    bpp: int,
    filter: u8,
) -> Seq<u8> {
    if filter < FILTER_LIMIT {
        crate::filter::filtered(data, height * (width * bpp), width * bpp, bpp, filter)
    } else {
        data
    }
}

/// Whether `body` is what the compressor `algo` may make of `stored`. Unknown codes
/// store the bytes themselves.
pub open spec fn compressed_form(algo: u8, stored: Seq<u8>, body: Seq<u8>) -> bool {
    if algo == COMP_ZSTD {
        crate::codec::zstd_may_write(stored, ZSTD_LEVEL, body)
    } else if algo == COMP_BROTLI {
        crate::codec::brotli_may_write(stored, BROTLI_BUFFER, BROTLI_QUALITY, BROTLI_LGWIN, body)
    } else if algo == COMP_LZMA {
        crate::codec::xz_may_write(stored, XZ_PRESET, body)
    } else if algo == COMP_DEFLATE {
        crate::codec::deflate_may_write(stored, DEFLATE_LEVEL, body)
    } else {
        body == stored
    }
}

/// The first `count` bytes that `body` expands to under the compressor `algo`.
pub open spec fn expanded(algo: u8, body: Seq<u8>, count: nat) -> Option<Seq<u8>> {
    if algo == COMP_ZSTD {
        crate::codec::zstd_read(body, count)
    } else if algo == COMP_BROTLI {
        crate::codec::brotli_read(body, BROTLI_BUFFER, count)
    } else if algo == COMP_LZMA {
        crate::codec::xz_read(body, count)
    } else if algo == COMP_DEFLATE {
        crate::codec::deflate_read(body, count)
    } else if body.len() < count {
        None
    } else {
        Some(body.take(count as int))
    }
}

/// The bytes of a tile.
pub open spec fn tile_len(width: int, height: int, bpp: int) -> int {
    width * height * bpp
}

/// The pixels that a tile payload stands for, or `None` if it is damaged.
pub open spec fn tile_pixels(payload: Seq<u8>, width: int, height: int, bpp: int) -> Option<
    Seq<u8>,
> {
    let count = tile_len(width, height, bpp) as nat;
    if payload.len() < 2 {
        None
    } else {
        match expanded(payload[0], payload.skip(2), count) {
            None => None,
            Some(stored) => Some(
                if payload[1] < FILTER_LIMIT {
                    crate::filter::unfiltered(stored, count, width * bpp, bpp, payload[1])
                } else {
                    stored
                },
            ),
        }
    }
}

/// Whether `payload` is a payload for `data`: it names its compressor and filter, its
/// body is what they make of the data, and the data can be read back from it.
pub open spec fn tile_written(
    payload: Seq<u8>,
    data: Seq<u8>,
    width: int,
    height: int,
    bpp: int,
    algo: u8,
    filter: u8,
) -> bool {
    &&& payload.len() >= 2
    &&& payload[0] == algo
    &&& payload[1] == filter
    &&& compressed_form(algo, stored_form(data, width, height, bpp, filter), payload.skip(2))
    &&& tile_len(width, height, bpp) <= data.len() ==> tile_pixels(payload, width, height, bpp)
        == Some(data.take(tile_len(width, height, bpp)))
}

/// Whether `payload` lost its body, which happens where zstd gave up for want of memory.
pub open spec fn tile_lost(payload: Seq<u8>, algo: u8, filter: u8) -> bool {
    &&& algo == COMP_ZSTD
    &&& payload == seq![algo, filter]
}

/// Whether decoding with `algo` may also fail for want of memory.
pub open spec fn needs_native_memory(algo: u8) -> bool {
    algo == COMP_ZSTD || algo == COMP_LZMA
}

/// A payload from its codes and what the compressor returned. A compressor that gave
/// up leaves the body empty.
pub fn assemble_payload(algo: u8, filter: u8, body: Option<Vec<u8>>) -> (payload: Vec<u8>)
    ensures
        payload@ == seq![algo, filter] + (match body {
            Some(body) => body@,
            None => Seq::empty(),
        }),
{
    let mut chunk_data: Vec<u8> = Vec::new();
    chunk_data.push(algo);
    chunk_data.push(filter);
    match body {
        Some(body) => {
            append(&mut chunk_data, &body);
            assert(chunk_data@ =~= seq![algo, filter] + body@);
        },
        None => {
            assert(chunk_data@ =~= seq![algo, filter] + Seq::empty());
        },
    }
    chunk_data
}

/// Three ways to count the bytes of a tile.
pub proof fn lemma_tile_len(width: int, height: int, bpp: int)
    ensures
        tile_len(width, height, bpp) == height * (width * bpp),
        tile_len(width, height, bpp) == height * width * bpp,
        width >= 0 && height >= 0 && bpp >= 0 ==> tile_len(width, height, bpp) >= 0,
{
    assert(width * height * bpp == height * (width * bpp)) by (nonlinear_arith);
    assert(width * height * bpp == height * width * bpp) by (nonlinear_arith);
    if width >= 0 && height >= 0 && bpp >= 0 {
        assert(width * height * bpp >= 0) by (nonlinear_arith)
            requires
                width >= 0,
                height >= 0,
                bpp >= 0,
        ;
    }
}

/// Reading the stored form and undoing the filter gives the data.
proof fn lemma_stored_form_reads_back(
    data: Seq<u8>,
    width: int,
    height: int,
    bpp: int,
    filter: u8,
)
    requires
        0 <= width,
        0 <= height,
        0 <= bpp,
        filter < FILTER_LIMIT,
        tile_len(width, height, bpp) <= data.len(),
    ensures
        crate::filter::unfiltered(
            stored_form(data, width, height, bpp, filter).take(tile_len(width, height, bpp)),
            tile_len(width, height, bpp) as nat,
            width * bpp,
            bpp,
            filter,
        ) == data.take(tile_len(width, height, bpp)),
{
    lemma_tile_len(width, height, bpp);
    let count = tile_len(width, height, bpp);
    let stored = stored_form(data, width, height, bpp, filter);
    if count == 0 {
        assert(data.take(0) =~= Seq::<u8>::empty());
    } else {
        assert(bpp >= 1 && width * bpp >= 1) by (nonlinear_arith)
            requires
                height * (width * bpp) > 0,
                height >= 0,
                width >= 0,
                bpp >= 0,
        ;
        crate::filter::unfilter_undoes_filter(data, count as nat, width * bpp, bpp, filter);
        lemma_unfiltered_reads_prefix(
            stored,
            stored.take(count),
            count as nat,
            width * bpp,
            bpp,
            filter,
        );
    }
}

/// Unfiltering `count` bytes reads `count` bytes.
proof fn lemma_unfiltered_reads_prefix(
    a: Seq<u8>,
    b: Seq<u8>,
    count: nat,
    stride: int,
    bpp: int,
    filter: u8,
)
    requires
        forall|i: int| 0 <= i < count ==> a[i] == b[i],
    ensures
        crate::filter::unfiltered(a, count, stride, bpp, filter) == crate::filter::unfiltered(
            b,
            count,
            stride,
            bpp,
            filter,
        ),
    decreases count,
{
    if count > 0 {
        lemma_unfiltered_reads_prefix(a, b, (count - 1) as nat, stride, bpp, filter);
    }
}

/// Filters and compresses the pixels of one tile.
pub fn compress_tile_payload(
    data: &[u8],
    width: usize,
    height: usize,
    bpp: usize,
    algo: u8,
    filter: u8,
) -> (payload: Vec<u8>)
    requires
        filter < FILTER_LIMIT ==> width * bpp <= usize::MAX && height * (width * bpp)
            <= data@.len(),
    ensures
        tile_written(
            payload@,
            data@,
            width as int,
            height as int,
            bpp as int,
            algo,
            filter,
        ) || tile_lost(payload@, algo, filter),
{
    let stored: Vec<u8> = if filter < FILTER_LIMIT {
        apply_png_filter(data, width, height, bpp, filter)
    } else {
        vstd::slice::slice_to_vec(data)
    };
    let ghost (w, h, b) = (width as int, height as int, bpp as int);
    let body: Option<Vec<u8>> = if algo == COMP_ZSTD {
        match zstd_encode(&stored, ZSTD_LEVEL) {
            Ok(frame) => Some(frame),
            Err(_) => None,
        }
    } else if algo == COMP_BROTLI {
        Some(brotli_encode(&stored, BROTLI_BUFFER, BROTLI_QUALITY, BROTLI_LGWIN))
    } else if algo == COMP_LZMA {
        Some(xz_encode(&stored, XZ_PRESET))
    } else if algo == COMP_DEFLATE {
        match deflate_encode(&stored, DEFLATE_LEVEL) {
            Ok(stream) => Some(stream),
            Err(_) => None,
        }
    } else {
        Some(vstd::slice::slice_to_vec(&stored))
    };
    let ghost returned = body;
    let payload: Vec<u8> = assemble_payload(algo, filter, body);
    proof {
        match returned {
            None => {
                assert(payload@ =~= seq![algo, filter]);
            },
            Some(body) => {
                assert(payload@.skip(2) =~= body@);
                lemma_tile_len(w, h, b);
                let count = tile_len(w, h, b);
                if count <= data@.len() {
                    assert(expanded(algo, body@, count as nat) == Some(stored@.take(count)));
                    if filter < FILTER_LIMIT {
                        lemma_stored_form_reads_back(data@, w, h, b, filter);
                    }
                }
            },
        }
    }
    payload
}

/// Whether a body is stored as it is under the code `algo`.
pub open spec fn is_stored(algo: u8) -> bool {
    algo != COMP_ZSTD && algo != COMP_BROTLI && algo != COMP_LZMA && algo != COMP_DEFLATE
}

/// The text of the error that a failed read of a body gives.
pub open spec fn read_failure(algo: u8, message: Seq<char>) -> bool {
    if algo == COMP_ZSTD {
        message == "ZSTD setup failed"@ || message == "ZSTD extraction failed"@
    } else if algo == COMP_BROTLI {
        message == "Brotli extraction failed"@
    } else if algo == COMP_LZMA {
        message == "LZMA extraction failed"@
    } else if algo == COMP_DEFLATE {
        message == "Deflate extraction failed"@
    } else {
        message == "Raw payload size mismatch"@
    }
}

/// What a read of a zstd body gives, for each way in which it can end.
pub fn zstd_result(end: ZstdEnd) -> (read: Result<(), &'static str>)
    ensures
        match end {
            ZstdEnd::Filled => read is Ok,
            ZstdEnd::NoDecoder => read matches Err(message) && message@ == "ZSTD setup failed"@,
            ZstdEnd::Failed => read matches Err(message) && message@
                == "ZSTD extraction failed"@,
        },
{
    match end {
        ZstdEnd::Filled => Ok(()),
        ZstdEnd::NoDecoder => Err("ZSTD setup failed"),
        ZstdEnd::Failed => Err("ZSTD extraction failed"),
    }
}

/// Expands a body into all of `target`.
fn expand_body(algo: u8, body: &[u8], target: &mut [u8]) -> (read: Result<(), &'static str>)
    ensures
        final(target)@.len() == old(target)@.len(),
        read is Ok ==> expanded(algo, body@, old(target)@.len()) == Some(final(target)@),
        !needs_native_memory(algo) ==> (read is Ok <==> expanded(
            algo,
            body@,
            old(target)@.len(),
        ) is Some),
        read matches Err(message) ==> read_failure(algo, message@),
        read is Err && is_stored(algo) ==> final(target)@ == old(target)@,
{
    if algo == COMP_ZSTD {
        zstd_result(zstd_decode(body, target))
    } else if algo == COMP_BROTLI {
        if brotli_decode(body, BROTLI_BUFFER, target) {
            Ok(())
        } else {
            Err("Brotli extraction failed")
        }
    } else if algo == COMP_LZMA {
        if xz_decode(body, target) {
            Ok(())
        } else {
            Err("LZMA extraction failed")
        }
    } else if algo == COMP_DEFLATE {
        if deflate_decode(body, target) {
            Ok(())
        } else {
            Err("Deflate extraction failed")
        }
    } else {
        let count: usize = target.len();
        if body.len() < count {
            Err("Raw payload size mismatch")
        } else {
            crate::bytes::copy_bytes(target, 0, body, 0, count);
            assert(target@ =~= body@.take(count as int));
            Ok(())
        }
    }
}

/// What reading a tile into the start of a buffer does: `before` is the buffer before it,
/// and `after` the buffer after it.
pub open spec fn tile_read(
    payload: Seq<u8>,
    width: int,
    height: int,
    bpp: int,
    before: Seq<u8>,
    after: Seq<u8>,
    read: Result<(), &'static str>,
) -> bool {
    let count = tile_len(width, height, bpp);
    let pixels = tile_pixels(payload, width, height, bpp);
    &&& after.len() == before.len()
    &&& if payload.len() < 2 {
        after == before && (read matches Err(message) && message@
            == "Invalid TDAT payload length"@)
    } else {
        &&& after.skip(count) == before.skip(count)
        &&& read is Ok ==> pixels == Some(after.take(count))
        &&& !needs_native_memory(payload[0]) ==> (read is Ok <==> pixels is Some)
        &&& read matches Err(message) ==> read_failure(payload[0], message@)
        &&& read is Err && is_stored(payload[0]) ==> after == before
    }
}

/// Reads the pixels of one tile into the start of `out_buf`. Bytes after the tile stay
/// as they are. A failed read of a stored body changes nothing; what a failed read of a
/// compressed body leaves in the tile is not stated.
pub fn decompress_tile_payload_inplace(
    payload: &[u8],
    width: usize,
    height: usize,
    bpp: usize,
    out_buf: &mut [u8],
) -> (read: Result<(), &'static str>)
    requires
        payload@.len() >= 2 ==> {
            &&& width * height <= usize::MAX
            &&& tile_len(width as int, height as int, bpp as int) <= old(out_buf)@.len()
            &&& payload@[1] < FILTER_LIMIT ==> width * bpp <= usize::MAX
        },
    ensures
        tile_read(
            payload@,
            width as int,
            height as int,
            bpp as int,
            old(out_buf)@,
            final(out_buf)@,
            read,
        ),
{
    if payload.len() < 2 {
        return Err("Invalid TDAT payload length");
    }
    let algo: u8 = payload[0];
    let filter: u8 = payload[1];
    let compressed_body: &[u8] = vstd::slice::slice_subrange(payload, 2, payload.len());
    let ghost (w, h, b) = (width as int, height as int, bpp as int);
    proof {
        lemma_tile_len(w, h, b);
        assert(compressed_body@ =~= payload@.skip(2));
    }
    let ghost out_len = out_buf.len();
    let expected_len: usize = width * height * bpp;
    let ghost before = out_buf@;
    let (target, rest) = out_buf.split_at_mut(expected_len);
    let read: Result<(), &'static str> = expand_body(algo, compressed_body, target);
    if read.is_ok() && filter < FILTER_LIMIT {
        let ghost stored = target@;
        undo_png_filter(target, width, height, bpp, filter);
        proof {
            crate::filter::lemma_unfiltered_len(stored, expected_len as nat, w * b, b, filter);
            assert(stored.skip(expected_len as int) =~= Seq::<u8>::empty());
            assert(target@ =~= crate::filter::unfiltered(
                stored,
                expected_len as nat,
                w * b,
                b,
                filter,
            ));
        }
    }
    assert(out_buf@.skip(expected_len as int) =~= before.skip(expected_len as int));
    assert(out_buf@.take(expected_len as int) =~= target@);
    assert(read is Err && is_stored(algo) ==> out_buf@ =~= before);
    read
}

/// Reading a tile undoes writing it: a payload that was written for exactly the bytes of a
/// tile is read back to them, for every compressor and filter, and the bytes after the tile
/// stay as they are.
///
/// Reading it with zstd or xz may fail, for want of memory alone.
pub proof fn read_undoes_write(
    payload: Seq<u8>,
    data: Seq<u8>,
    width: int,
    height: int,
    bpp: int,
    algo: u8,
    filter: u8,
    before: Seq<u8>,
    after: Seq<u8>,
    read: Result<(), &'static str>,
)
    requires
        data.len() == tile_len(width, height, bpp),
        tile_written(payload, data, width, height, bpp, algo, filter),
        tile_read(payload, width, height, bpp, before, after, read),
    ensures
        read is Ok || needs_native_memory(algo),
        read is Ok ==> after.take(data.len() as int) == data && after.skip(data.len() as int)
            == before.skip(data.len() as int),
{
    assert(data.take(data.len() as int) =~= data);
}

/// Which compressor each code stands for when a tile is written, and how it is set: zstd (16)
/// at level 11, brotli (17) with a buffer of 4096 bytes, quality 5 and a window of 22 bits, xz
/// (18) at preset 3, deflate (0) at level 1. Under every other code the body is the filtered
/// tile itself.
pub proof fn codes_name_their_compressors(algo: u8, stored: Seq<u8>, body: Seq<u8>)
    ensures
        algo == 16 ==> compressed_form(algo, stored, body) == crate::codec::zstd_may_write(
            stored,
            11,
            body,
        ),
        algo == 17 ==> compressed_form(algo, stored, body) == crate::codec::brotli_may_write(
            stored,
            4096,
            5,
            22,
            body,
        ),
        algo == 18 ==> compressed_form(algo, stored, body) == crate::codec::xz_may_write(
            stored,
            3,
            body,
        ),
        algo == 0 ==> compressed_form(algo, stored, body) == crate::codec::deflate_may_write(
            stored,
            1,
            body,
        ),
        algo != 16 && algo != 17 && algo != 18 && algo != 0 ==> (compressed_form(algo, stored, body)
            <==> body == stored),
{
}

/// Which decoder each code stands for when a tile is read: zstd (16), brotli (17), xz (18) and
/// deflate (0). Under every other code the first bytes of the body are taken as they are, and
/// a body that is too short is damaged.
pub proof fn codes_name_their_decoders(algo: u8, body: Seq<u8>, count: nat)
    ensures
        algo == 16 ==> expanded(algo, body, count) == crate::codec::zstd_read(body, count),
        algo == 17 ==> expanded(algo, body, count) == crate::codec::brotli_read(
            body,
            4096,
            count,
        ),
        algo == 18 ==> expanded(algo, body, count) == crate::codec::xz_read(body, count),
        algo == 0 ==> expanded(algo, body, count) == crate::codec::deflate_read(body, count),
        algo != 16 && algo != 17 && algo != 18 && algo != 0 ==> {
            &&& expanded(algo, body, count) is Some <==> body.len() >= count
            &&& body.len() >= count ==> expanded(algo, body, count) == Some(
                body.subrange(0, count as int),
            )
        },
{
    if body.len() >= count {
        assert(body.take(count as int) =~= body.subrange(0, count as int));
    }
}

/// A payload that was written names its compressor and its filter in its first two bytes, and
/// its body is what the compressor makes of the tile: filtered byte by byte under a filter code
/// below 16, and as it is from there on.
pub proof fn payload_has_its_parts(
    payload: Seq<u8>,
    data: Seq<u8>,
    width: int,
    height: int,
    bpp: int,
    algo: u8,
    filter: u8,
)
    requires
        tile_written(payload, data, width, height, bpp, algo, filter),
    ensures
        payload.len() >= 2,
        payload[0] == algo,
        payload[1] == filter,
        filter >= 16 ==> compressed_form(algo, data, payload.skip(2)),
        filter < 16 ==> compressed_form(
            algo,
            crate::filter::filtered(data, height * (width * bpp), width * bpp, bpp, filter),
            payload.skip(2),
        ),
{
}

/// The pixels of a tile come out of its payload in two steps: the body, which starts at the
/// third byte, is expanded to as many bytes as the tile has pixels' bytes, and under a filter
/// code below 16 the filter is undone. A payload of fewer than two bytes is damaged, and so is
/// one whose body does not expand.
pub proof fn pixels_come_out_of_the_body(payload: Seq<u8>, width: int, height: int, bpp: int)
    requires
        0 <= width,
        0 <= height,
        0 <= bpp,
    ensures
        ({
            let pixels = tile_pixels(payload, width, height, bpp);
            let count = (height * (width * bpp)) as nat;
            let body = payload.subrange(2, payload.len() as int);
            &&& payload.len() < 2 ==> pixels is None
            &&& payload.len() >= 2 ==> (pixels is Some <==> expanded(payload[0], body, count)
                is Some)
            &&& payload.len() >= 2 && payload[1] >= 16 ==> pixels == expanded(
                payload[0],
                body,
                count,
            )
            &&& payload.len() >= 2 && payload[1] < 16 ==> (expanded(payload[0], body, count)
                matches Some(stored) ==> pixels == Some(
                crate::filter::unfiltered(stored, count, width * bpp, bpp, payload[1]),
            ))
        }),
{
    lemma_tile_len(width, height, bpp);
    if payload.len() >= 2 {
        assert(payload.subrange(2, payload.len() as int) =~= payload.skip(2));
    }
}

/// Memory of the machine decides for zstd (16) and xz (18) alone, and a tile can be lost for
/// zstd alone: its two codes are then all that is left of it.
pub proof fn memory_decides_for_zstd_and_xz(algo: u8, filter: u8, payload: Seq<u8>)
    ensures
        needs_native_memory(algo) <==> algo == 16 || algo == 18,
        tile_lost(payload, algo, filter) <==> algo == 16 && payload.len() == 2 && payload[0] == 16
            && payload[1] == filter,
        is_stored(algo) <==> algo != 0 && !(16 <= algo <= 18),
{
    if algo == 16 && payload.len() == 2 && payload[0] == 16 && payload[1] == filter {
        assert(payload =~= seq![algo, filter]);
    }
}

/// The message of a failed read names the compressor that failed.
pub proof fn failures_name_their_compressor(algo: u8, message: Seq<char>)
    ensures
        read_failure(algo, message) <==> {
            ||| algo == 16 && (message == "ZSTD setup failed"@ || message
                == "ZSTD extraction failed"@)
            ||| algo == 17 && message == "Brotli extraction failed"@
            ||| algo == 18 && message == "LZMA extraction failed"@
            ||| algo == 0 && message == "Deflate extraction failed"@
            ||| algo != 0 && !(16 <= algo <= 18) && message == "Raw payload size mismatch"@
        },
{
}

/// Whether a tile can be read rests on its payload: a damaged one is reported and never read,
/// and a sound one is read, unless its compressor is zstd (16) or xz (18) and memory runs out.
/// Where it is read, the buffer starts with its pixels, and the rest of it stays as it was.
pub proof fn tiles_are_read_by_their_payload(
    payload: Seq<u8>,
    width: int,
    height: int,
    bpp: int,
    before: Seq<u8>,
    after: Seq<u8>,
    read: Result<(), &'static str>,
)
    requires
        0 <= width,
        0 <= height,
        0 <= bpp,
        tile_read(payload, width, height, bpp, before, after, read),
    ensures
        ({
            let pixels = tile_pixels(payload, width, height, bpp);
            let count = height * (width * bpp);
            &&& after.len() == before.len()
            &&& pixels is None ==> read is Err
            &&& read is Ok ==> pixels == Some(after.take(count)) && after.skip(count)
                == before.skip(count)
            &&& pixels is Some && payload[0] != 16 && payload[0] != 18 ==> read is Ok
            &&& payload.len() < 2 ==> after == before && (read matches Err(message) && message@
                == "Invalid TDAT payload length"@)
        }),
{
    lemma_tile_len(width, height, bpp);
}

} // verus!
