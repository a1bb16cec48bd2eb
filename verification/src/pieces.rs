//! What a decoder makes of a stream does not depend on checksums, on chunks of foreign types
//! or on bytes after the end.

use crate::bytes::be32;
use crate::channel::{lemma_calls_in_order, History};
use crate::chunk::{len32, split_chunk, split_ignores_checksum, ChunkRead};
use crate::decoder::{
    config_in, decode, decode_chunks, decode_extends, info_in, layout_of, no_tiles_yet,
    read_tiles, stopped, take_tile, undisturbed, Decoded, Layout, Progress, Step,
};
use crate::format::{
    pixel_bytes, TngDecoder, TngFault, CHUNK_IEND, CHUNK_IHDR, CHUNK_TDAT, CHUNK_THDR, TNG_MAGIC,
};
use vstd::prelude::*;

verus! {

/// A chunk with whatever stands in the place of its checksum.
pub struct Piece {
    pub tag: Seq<u8>,
    pub data: Seq<u8>,
    pub checksum: Seq<u8>,
}

impl Piece {
    /// The type and the checksum have four bytes, and the data is short enough for its
    /// length to be written in full.
    pub open spec fn wf(self) -> bool {
        self.tag.len() == 4 && self.checksum.len() == 4 && self.data.len() <= u32::MAX
    }

    /// The bytes of the chunk.
    pub open spec fn bytes(self) -> Seq<u8> {
        be32(len32(self.data.len())) + self.tag + self.data + self.checksum
    }

    /// Whether the chunk has a type that no decoder looks for.
    pub open spec fn foreign(self) -> bool {
        &&& self.tag != CHUNK_IHDR@
        &&& self.tag != CHUNK_THDR@
        &&& self.tag != CHUNK_TDAT@
        &&& self.tag != CHUNK_IEND@
    }
}

/// Whether every chunk has the form of one.
pub open spec fn all_wf(pieces: Seq<Piece>) -> bool {
    forall|i: int| 0 <= i < pieces.len() ==> (#[trigger] pieces[i]).wf()
}

/// The bytes of some chunks, one after the other.
pub open spec fn pieces_bytes(pieces: Seq<Piece>) -> Seq<u8>
    decreases pieces.len(),
{
    if pieces.len() == 0 {
        Seq::empty()
    } else {
        pieces.first().bytes() + pieces_bytes(pieces.drop_first())
    }
}

/// The types and data of the chunks that are not foreign.
pub open spec fn known(pieces: Seq<Piece>) -> Seq<(Seq<u8>, Seq<u8>)>
    decreases pieces.len(),
{
    if pieces.len() == 0 {
        Seq::empty()
    } else if pieces.first().foreign() {
        known(pieces.drop_first())
    } else {
        seq![(pieces.first().tag, pieces.first().data)] + known(pieces.drop_first())
    }
}

/// Whether two runs write the same rows, call by call, and end in the same way.
pub open spec fn agree(a: Decoded, b: Decoded) -> bool {
    a.rows == b.rows && a.starved == b.starved && a.end == b.end
}

proof fn lemma_rest_wf(pieces: Seq<Piece>)
    requires
        all_wf(pieces),
        pieces.len() > 0,
    ensures
        all_wf(pieces.drop_first()),
{
    assert forall|i: int| 0 <= i < pieces.drop_first().len() implies (
    #[trigger] pieces.drop_first()[i]).wf() by {
        assert(pieces[i + 1].wf());
    }
}

/// The first chunk is split off, whatever its checksum is.
proof fn lemma_first_piece(pieces: Seq<Piece>)
    requires
        all_wf(pieces),
        pieces.len() > 0,
    ensures
        split_chunk(pieces_bytes(pieces)) == (ChunkRead::Whole {
            tag: pieces.first().tag,
            data: pieces.first().data,
            rest: pieces_bytes(pieces.drop_first()),
        }),
        all_wf(pieces.drop_first()),
{
    let first = pieces[0];
    assert(first.wf());
    lemma_rest_wf(pieces);
    split_ignores_checksum(
        first.tag,
        first.data,
        first.checksum,
        pieces_bytes(pieces.drop_first()),
    );
}

/// The first chunks of two lists that know the same and start with known chunks.
proof fn lemma_first_known(a: Seq<Piece>, b: Seq<Piece>)
    requires
        known(a) == known(b),
        a.len() > 0 ==> !a.first().foreign(),
        b.len() > 0 ==> !b.first().foreign(),
    ensures
        a.len() == 0 <==> b.len() == 0,
        a.len() > 0 ==> {
            &&& a.first().tag == b.first().tag
            &&& a.first().data == b.first().data
            &&& known(a.drop_first()) == known(b.drop_first())
        },
{
    if a.len() > 0 {
        assert(known(a)[0] == (a.first().tag, a.first().data));
        assert(known(a).drop_first() =~= known(a.drop_first()));
        assert(known(b).len() > 0);
        assert(known(b)[0] == (b.first().tag, b.first().data));
        assert(known(b).drop_first() =~= known(b.drop_first()));
    } else if b.len() > 0 {
        assert(known(b)[0] == (b.first().tag, b.first().data));
        assert(known(b).len() > 0);
    }
}

proof fn lemma_tiles_agree(layout: Layout, state: Progress, a: Seq<Piece>, b: Seq<Piece>)
    requires
        all_wf(a),
        all_wf(b),
        known(a) == known(b),
    ensures
        agree(
            read_tiles(layout, state, pieces_bytes(a)),
            read_tiles(layout, state, pieces_bytes(b)),
        ),
    decreases a.len() + b.len(),
{
    if a.len() > 0 {
        lemma_first_piece(a);
    }
    if b.len() > 0 {
        lemma_first_piece(b);
    }
    if a.len() > 0 && a.first().foreign() {
        lemma_tiles_agree(layout, state, a.drop_first(), b);
    } else if b.len() > 0 && b.first().foreign() {
        lemma_tiles_agree(layout, state, a, b.drop_first());
    } else {
        lemma_first_known(a, b);
        if a.len() > 0 {
            let data = a.first().data;
            if a.first().tag == CHUNK_TDAT@ {
                if let Step::Next(next) = take_tile(layout, state, data) {
                    lemma_tiles_agree(layout, next, a.drop_first(), b.drop_first());
                }
            } else if a.first().tag != CHUNK_IEND@ {
                lemma_tiles_agree(layout, state, a.drop_first(), b.drop_first());
            }
        }
    }
}

/// What some chunks give.
#[verifier::opaque]
spec fn outcome(decoder: TngDecoder, pieces: Seq<Piece>) -> (TngDecoder, Decoded) {
    decode_chunks(decoder, pieces_bytes(pieces))
}

/// A decoder that has seen an image header.
spec fn told(decoder: TngDecoder, data: Seq<u8>) -> TngDecoder {
    let info = info_in(data);
    TngDecoder {
        info: Some(info),
        bytes_per_pixel: pixel_bytes(info.color_type, info.bit_depth) as usize,
        ..decoder
    }
}

/// What follows a tile grid header.
spec fn after_grid(decoder: TngDecoder, data: Seq<u8>, rest: Seq<u8>) -> Decoded {
    match decoder.info {
        None => stopped(rest, None, Ok(-9i32)),
        Some(info) => match layout_of(info, config_in(data), decoder.bytes_per_pixel) {
            None => stopped(rest, None, Err(TngFault::Malformed)),
            Some(layout) => read_tiles(layout, no_tiles_yet(layout), rest),
        },
    }
}

/// What the first chunk does.
proof fn lemma_outcome(decoder: TngDecoder, pieces: Seq<Piece>)
    requires
        all_wf(pieces),
        pieces.len() > 0,
    ensures
        ({
            let tag = pieces.first().tag;
            let data = pieces.first().data;
            let rest = pieces.drop_first();
            let fault = stopped(pieces_bytes(rest), None, Err(TngFault::Malformed));
            outcome(decoder, pieces) == if tag == CHUNK_IHDR@ {
                if data.len() < 10 {
                    (decoder, fault)
                } else {
                    outcome(told(decoder, data), rest)
                }
            } else if tag == CHUNK_THDR@ {
                if data.len() < 24 {
                    (decoder, fault)
                } else {
                    (
                        TngDecoder { config: Some(config_in(data)), ..decoder },
                        after_grid(decoder, data, pieces_bytes(rest)),
                    )
                }
            } else {
                outcome(decoder, rest)
            }
        }),
{
    reveal(outcome);
    lemma_first_piece(pieces);
}

/// The tiles after a tile grid header.
proof fn lemma_grids_agree(decoder: TngDecoder, data: Seq<u8>, a: Seq<Piece>, b: Seq<Piece>)
    requires
        all_wf(a),
        all_wf(b),
        known(a) == known(b),
    ensures
        agree(
            after_grid(decoder, data, pieces_bytes(a)),
            after_grid(decoder, data, pieces_bytes(b)),
        ),
{
    if let Some(info) = decoder.info {
        if let Some(layout) = layout_of(info, config_in(data), decoder.bytes_per_pixel) {
            lemma_tiles_agree(layout, no_tiles_yet(layout), a, b);
        }
    }
}

proof fn lemma_chunks_agree(decoder: TngDecoder, a: Seq<Piece>, b: Seq<Piece>)
    requires
        all_wf(a),
        all_wf(b),
        known(a) == known(b),
    ensures
        outcome(decoder, a).0 == outcome(decoder, b).0,
        agree(outcome(decoder, a).1, outcome(decoder, b).1),
    decreases a.len() + b.len(),
{
    if a.len() > 0 {
        lemma_rest_wf(a);
        lemma_outcome(decoder, a);
    }
    if b.len() > 0 {
        lemma_rest_wf(b);
        lemma_outcome(decoder, b);
    }
    if a.len() > 0 && a.first().foreign() {
        lemma_chunks_agree(decoder, a.drop_first(), b);
    } else if b.len() > 0 && b.first().foreign() {
        lemma_chunks_agree(decoder, a, b.drop_first());
    } else {
        lemma_first_known(a, b);
        if a.len() > 0 {
            let tag = a.first().tag;
            let data = a.first().data;
            if tag == CHUNK_IHDR@ {
                if data.len() >= 10 {
                    lemma_chunks_agree(told(decoder, data), a.drop_first(), b.drop_first());
                }
            } else if tag == CHUNK_THDR@ {
                lemma_grids_agree(decoder, data, a.drop_first(), b.drop_first());
            } else {
                lemma_chunks_agree(decoder, a.drop_first(), b.drop_first());
            }
        } else {
            assert(a =~= b);
        }
    }
}

/// Checksums and foreign chunks do not matter: two streams whose known chunks have the same
/// types and data, in the same order, are decoded to the same pixels, with the same code.
pub proof fn only_known_chunks_matter(decoder: TngDecoder, a: Seq<Piece>, b: Seq<Piece>)
    requires
        all_wf(a),
        all_wf(b),
        known(a) == known(b),
    ensures
        ({
            let x = decode(decoder, TNG_MAGIC@ + pieces_bytes(a));
            let y = decode(decoder, TNG_MAGIC@ + pieces_bytes(b));
            x.0 == y.0 && agree(x.1, y.1)
        }),
{
    lemma_after_magic(pieces_bytes(a));
    lemma_after_magic(pieces_bytes(b));
    lemma_chunks_agree(decoder, a, b);
    reveal(outcome);
}

/// So do the calls that write: two runs over such streams that nothing disturbs offer the same
/// rows, call by call, and end in the same way.
pub proof fn only_known_chunks_are_written(
    decoder: TngDecoder,
    a: Seq<Piece>,
    b: Seq<Piece>,
    run_a: History,
    run_b: History,
    end_a: Result<i32, TngFault>,
    end_b: Result<i32, TngFault>,
)
    requires
        all_wf(a),
        all_wf(b),
        known(a) == known(b),
        run_a.got() == TNG_MAGIC@ + pieces_bytes(a),
        run_b.got() == TNG_MAGIC@ + pieces_bytes(b),
        undisturbed(decode(decoder, run_a.got()).1, run_a, end_a),
        undisturbed(decode(decoder, run_b.got()).1, run_b, end_b),
    ensures
        run_a.offered() == run_b.offered(),
        run_a.writes() == run_b.writes(),
        end_a == end_b,
{
    only_known_chunks_matter(decoder, a, b);
    lemma_calls_in_order(run_a);
    lemma_calls_in_order(run_b);
    assert(run_a.refused() =~= run_b.refused());
}

proof fn lemma_after_magic(rest: Seq<u8>)
    ensures
        (TNG_MAGIC@ + rest).take(8) == TNG_MAGIC@,
        (TNG_MAGIC@ + rest).skip(8) == rest,
        (TNG_MAGIC@ + rest).len() >= 8,
{
    assert((TNG_MAGIC@ + rest).take(8) =~= TNG_MAGIC@);
    assert((TNG_MAGIC@ + rest).skip(8) =~= rest);
}

/// Nor do bytes after the end of a whole stream: where a run over the chunks does not end for
/// want of bytes, other checksums, foreign chunks and any bytes that follow change nothing.
pub proof fn trailing_bytes_do_not_matter(
    decoder: TngDecoder,
    a: Seq<Piece>,
    b: Seq<Piece>,
    trailing: Seq<u8>,
)
    requires
        all_wf(a),
        all_wf(b),
        known(a) == known(b),
        decode(decoder, TNG_MAGIC@ + pieces_bytes(a)).1.starved is None,
    ensures
        ({
            let x = decode(decoder, TNG_MAGIC@ + pieces_bytes(a));
            let y = decode(decoder, TNG_MAGIC@ + pieces_bytes(b) + trailing);
            x.0 == y.0 && agree(x.1, y.1)
        }),
{
    only_known_chunks_matter(decoder, a, b);
    decode_extends(decoder, TNG_MAGIC@ + pieces_bytes(b), trailing);
}

} // verus!
