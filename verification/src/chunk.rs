//! Chunks: a length, a type, data and a checksum.

use crate::bytes::{be32, from_be32, push_be32, read_be32};
use crate::channel::{
    joined, lemma_blank, lemma_joined_one, lemma_one_call, lemma_reached, lemma_since,
    lemma_since_itself, reached, sink_call, source_call, ByteSink, ByteSource, Call, Channel,
    History,
};
use crate::crc::{crc32, crc_of};
use vstd::prelude::*;

verus! {

/// A length as it is written: its low 32 bits.
pub open spec fn len32(len: nat) -> u32 {
    (len % 0x1_0000_0000) as u32
}

/// A length as it is written.
pub fn low_u32(len: usize) -> (low: u32)
    ensures
        low == len32(len as nat),
{
    assert((len as u32) as int == len as int % 0x1_0000_0000) by (bit_vector);
    #[verifier::truncate]
    let low: u32 = len as u32;
    low
}

/// The bytes of a chunk.
pub open spec fn chunk_bytes(tag: Seq<u8>, data: Seq<u8>) -> Seq<u8> {
    be32(len32(data.len())) + tag + data + be32(crc_of(tag + data))
}

/// The parts of a chunk, as they are written one by one. Empty data is not offered to the
/// sink.
pub open spec fn chunk_parts(tag: Seq<u8>, data: Seq<u8>) -> Seq<Seq<u8>> {
    let len = be32(len32(data.len()));
    let crc = be32(crc_of(tag + data));
    if data.len() > 0 {
        seq![len, tag, data, crc]
    } else {
        seq![len, tag, crc]
    }
}

/// The parts of a chunk make up the chunk.
pub proof fn parts_make_the_chunk(tag: Seq<u8>, data: Seq<u8>)
    ensures
        joined(chunk_parts(tag, data)) == chunk_bytes(tag, data),
{
    let len = be32(len32(data.len()));
    let crc = be32(crc_of(tag + data));
    lemma_joined_one(len);
    assert(seq![len, tag].drop_last() =~= seq![len]);
    assert(joined(seq![len, tag]) == len + tag);
    if data.len() > 0 {
        assert(seq![len, tag, data].drop_last() =~= seq![len, tag]);
        assert(joined(seq![len, tag, data]) == len + tag + data);
        assert(seq![len, tag, data, crc].drop_last() =~= seq![len, tag, data]);
    } else {
        assert(seq![len, tag, crc].drop_last() =~= seq![len, tag]);
        assert(len + tag + data =~= len + tag);
    }
}

/// Whether all of `parts` were written, and nothing else happened.
pub open spec fn wrote(h: History, parts: Seq<Seq<u8>>) -> bool {
    h.reads().len() == 0 && h.short().len() == 0 && h.writes() == parts && h.refused().len() == 0
}

/// Whether writing `parts` stopped at one of them: those before it were taken, it was
/// refused, and nothing else happened.
pub open spec fn stopped_writing(h: History, parts: Seq<Seq<u8>>) -> bool {
    &&& h.reads().len() == 0 && h.short().len() == 0
    &&& h.fails_last()
    &&& exists|k: int|
        0 <= k < parts.len() && h.writes() == #[trigger] parts.take(k) && h.refused()
            == seq![parts[k]]
}

/// The calls that offer `parts`, each of which is taken.
pub open spec fn taken(parts: Seq<Seq<u8>>) -> History {
    History {
        calls: Seq::new(
            parts.len(),
            |i: int| Call::Write { data: parts[i], count: parts[i].len() },
        ),
    }
}

/// What such calls amount to.
pub proof fn lemma_taken(parts: Seq<Seq<u8>>)
    ensures
        wrote(taken(parts), parts),
        taken(parts).got().len() == 0,
    decreases parts.len(),
{
    if parts.len() == 0 {
        assert(taken(parts).calls =~= History::blank().calls);
        assert(parts =~= Seq::empty());
        lemma_blank();
    } else {
        let fewer = parts.drop_last();
        let last = parts.last();
        lemma_taken(fewer);
        assert(taken(parts).calls =~= taken(fewer).after_write(last).calls);
        lemma_one_call(taken(fewer), Call::Write { data: last, count: last.len() });
        assert(fewer.push(last) =~= parts);
    }
}

/// Where all of `parts` were written and nothing else happened, those were the calls.
pub proof fn lemma_wrote(h: History, parts: Seq<Seq<u8>>)
    requires
        wrote(h, parts),
    ensures
        h == taken(parts),
    decreases h.calls.len(),
{
    if h.calls.len() == 0 {
        assert(h.calls =~= History::blank().calls);
        lemma_blank();
        assert(h.calls =~= taken(parts).calls);
    } else {
        let fewer = History { calls: h.calls.drop_last() };
        assert(h.calls =~= fewer.after(h.calls.last()).calls);
        lemma_one_call(fewer, h.calls.last());
        assert(parts.drop_last() =~= fewer.writes());
        lemma_wrote(fewer, parts.drop_last());
        assert(h.calls =~= taken(parts).calls);
    }
}

/// Writes one part after those that were written before.
fn emit_part<C: ByteSink>(
    io: &mut Channel<C>,
    data: &[u8],
    Ghost(h0): Ghost<History>,
    Ghost(parts): Ghost<Seq<Seq<u8>>>,
    Ghost(k): Ghost<int>,
) -> (taken: bool)
    requires
        0 <= k < parts.len(),
        parts[k] == data@,
        old(io)@.follows(h0),
        wrote(old(io)@.since(h0), parts.take(k)),
    ensures
        reached(sink_call::<C>(), *old(io), *final(io)),
        final(io)@.follows(h0),
        taken ==> wrote(final(io)@.since(h0), parts.take(k + 1)),
        !taken ==> stopped_writing(final(io)@.since(h0), parts),
{
    proof {
        lemma_since(h0, io@);
        assert(parts.take(k).push(parts[k]) =~= parts.take(k + 1));
    }
    let taken: bool = io.send(data);
    proof {
        if !taken {
            assert(io@.since(h0).refused() =~= seq![parts[k]]);
        }
    }
    taken
}

/// Writes a chunk part by part; tells whether every part was taken.
pub fn emit_chunk<C: ByteSink>(io: &mut Channel<C>, tag: [u8; 4], data: &[u8]) -> (taken: bool)
    ensures
        reached(sink_call::<C>(), *old(io), *final(io)),
        taken ==> wrote(final(io)@.since(old(io)@), chunk_parts(tag@, data@)),
        !taken ==> stopped_writing(final(io)@.since(old(io)@), chunk_parts(tag@, data@)),
{
    let ghost h0 = io@;
    let ghost parts = chunk_parts(tag@, data@);
    let mut len_bytes: Vec<u8> = Vec::new();
    push_be32(&mut len_bytes, low_u32(data.len()));
    let crc: u32 = crc32(&tag, data);
    let mut crc_bytes: Vec<u8> = Vec::new();
    push_be32(&mut crc_bytes, crc);
    proof {
        lemma_since_itself(h0);
        lemma_blank();
        assert(len_bytes@ =~= parts[0]);
        assert(crc_bytes@ =~= parts.last());
        assert(parts.take(0) =~= Seq::empty());
    }
    let ghost c0 = *io;
    if !emit_part(io, &len_bytes, Ghost(h0), Ghost(parts), Ghost(0)) {
        return false;
    }
    let ghost c1 = *io;
    let taken: bool = emit_part(io, &tag, Ghost(h0), Ghost(parts), Ghost(1));
    proof {
        lemma_reached(sink_call::<C>(), c0, c1, *io);
    }
    if !taken {
        return false;
    }
    if !data.is_empty() {
        let ghost c2 = *io;
        let taken: bool = emit_part(io, data, Ghost(h0), Ghost(parts), Ghost(2));
        proof {
            lemma_reached(sink_call::<C>(), c0, c2, *io);
        }
        if !taken {
            return false;
        }
    }
    let ghost c3 = *io;
    let taken: bool = emit_part(io, &crc_bytes, Ghost(h0), Ghost(parts), Ghost(parts.len() - 1));
    proof {
        lemma_reached(sink_call::<C>(), c0, c3, *io);
        assert(parts.take(parts.len() as int) =~= parts);
    }
    taken
}

/// What stands at the start of some bytes.
pub enum ChunkRead {
    /// A whole chunk, and the bytes after it.
    Whole { tag: Seq<u8>, data: Seq<u8>, rest: Seq<u8> },
    /// The bytes end inside a chunk: in its length (1), type (2), data (3) or checksum
    /// (4). `wanted` is the size of that part, and `rest` is what is left after the parts that
    /// are there in full.
    Cut { part: int, wanted: nat, rest: Seq<u8> },
}

/// Splits the first chunk off `input`. The checksum is skipped, not compared.
pub open spec fn split_chunk(input: Seq<u8>) -> ChunkRead {
    if input.len() < 4 {
        ChunkRead::Cut { part: 1, wanted: 4, rest: input }
    } else {
        let len = from_be32(input.take(4)) as int;
        let after_len = input.skip(4);
        if after_len.len() < 4 {
            ChunkRead::Cut { part: 2, wanted: 4, rest: after_len }
        } else {
            let tag = after_len.take(4);
            let after_tag = after_len.skip(4);
            if after_tag.len() < len {
                ChunkRead::Cut { part: 3, wanted: len as nat, rest: after_tag }
            } else {
                let data = after_tag.take(len);
                let after_data = after_tag.skip(len);
                if after_data.len() < 4 {
                    ChunkRead::Cut { part: 4, wanted: 4, rest: after_data }
                } else {
                    ChunkRead::Whole { tag, data, rest: after_data.skip(4) }
                }
            }
        }
    }
}

/// A chunk is read back, with whatever follows it left over, and whatever its checksum is:
/// checksums are not compared. Its data must be short enough for its length to be written
/// in full.
#[verifier::rlimit(30)]
pub proof fn split_ignores_checksum(tag: Seq<u8>, data: Seq<u8>, crc: Seq<u8>, rest: Seq<u8>)
    requires
        tag.len() == 4,
        crc.len() == 4,
        data.len() <= u32::MAX,
    ensures
        split_chunk(be32(len32(data.len())) + tag + data + crc + rest) == (ChunkRead::Whole {
            tag,
            data,
            rest,
        }),
{
    let len = be32(len32(data.len()));
    let input = len + tag + data + crc + rest;
    crate::bytes::be32_round_trip(len32(data.len()));
    assert(input.take(4) =~= len);
    assert(input.skip(4) =~= tag + (data + (crc + rest)));
    assert(input.skip(4).take(4) =~= tag);
    let after_tag = input.skip(4).skip(4);
    assert(after_tag =~= data + (crc + rest));
    assert(after_tag.take(data.len() as int) =~= data);
    assert(after_tag.skip(data.len() as int) =~= crc + rest);
    assert((crc + rest).skip(4) =~= rest);
}

/// A chunk that was written is read back, with whatever follows it left over. Its data
/// must be short enough for its length to be written in full.
#[verifier::rlimit(30)]
pub proof fn split_undoes_chunk(tag: Seq<u8>, data: Seq<u8>, rest: Seq<u8>)
    requires
        tag.len() == 4,
        data.len() <= u32::MAX,
    ensures
        split_chunk(chunk_bytes(tag, data) + rest) == (ChunkRead::Whole { tag, data, rest }),
{
    split_ignores_checksum(tag, data, be32(crc_of(tag + data)), rest);
}

/// More bytes after a whole chunk do not change how it is read.
pub proof fn lemma_split_chunk_extends(input: Seq<u8>, more: Seq<u8>)
    requires
        split_chunk(input) is Whole,
    ensures
        split_chunk(input + more) == (match split_chunk(input) {
            ChunkRead::Whole { tag, data, rest } => ChunkRead::Whole {
                tag,
                data,
                rest: rest + more,
            },
            cut => cut,
        }),
{
    let whole = input + more;
    assert(whole.take(4) =~= input.take(4));
    let len = from_be32(input.take(4)) as int;
    assert(whole.skip(4) =~= input.skip(4) + more);
    assert(whole.skip(4).take(4) =~= input.skip(4).take(4));
    assert(whole.skip(4).skip(4) =~= input.skip(4).skip(4) + more);
    let t = input.skip(4).skip(4);
    assert((t + more).take(len) =~= t.take(len));
    assert((t + more).skip(len) =~= t.skip(len) + more);
    assert((t.skip(len) + more).skip(4) =~= t.skip(len).skip(4) + more);
}

/// A chunk that lacks bytes at its end is not read as a whole one.
pub proof fn split_notices_missing_bytes(tag: Seq<u8>, data: Seq<u8>, len: int)
    requires
        tag.len() == 4,
        data.len() <= u32::MAX,
        0 <= len < chunk_bytes(tag, data).len(),
    ensures
        split_chunk(chunk_bytes(tag, data).take(len)) is Cut,
{
    let all = chunk_bytes(tag, data);
    let part = all.take(len);
    let missing = all.skip(len);
    assert(part + missing =~= all);
    assert(all + Seq::<u8>::empty() =~= all);
    split_undoes_chunk(tag, data, Seq::empty());
    if let ChunkRead::Whole { tag, data, rest } = split_chunk(part) {
        lemma_split_chunk_extends(part, missing);
        assert((rest + missing).len() > 0);
    }
}

/// A chunk that was read.
pub struct Chunk {
    pub tag: Vec<u8>,
    pub data: Vec<u8>,
}

/// The parts of the chunks in some bytes, as they are read one by one. Empty data is not asked
/// for, and a part that is not there in full is left out.
pub open spec fn chunk_cuts(input: Seq<u8>) -> Seq<Seq<u8>>
    decreases input.len(),
{
    let head = seq![input.take(4), input.subrange(4, 8)];
    match split_chunk(input) {
        ChunkRead::Cut { part, wanted, rest } => if part == 1 {
            Seq::empty()
        } else if part == 2 {
            seq![input.take(4)]
        } else if part == 3 {
            head
        } else {
            head + data_cut(input.subrange(8, input.len() - rest.len()))
        },
        ChunkRead::Whole { tag, data, rest } => {
            let end = input.len() - rest.len();
            head + data_cut(data) + seq![input.subrange(end - 4, end)] + chunk_cuts(rest)
        },
    }
}

/// The data of a chunk, if it has any.
pub open spec fn data_cut(data: Seq<u8>) -> Seq<Seq<u8>> {
    if data.len() > 0 {
        seq![data]
    } else {
        Seq::empty()
    }
}

/// The parts of a whole chunk come before those of what follows it.
pub proof fn lemma_cuts_after_chunk(chunk: Seq<u8>, more: Seq<u8>)
    requires
        split_chunk(chunk) matches ChunkRead::Whole { tag, data, rest } && rest.len() == 0,
    ensures
        chunk_cuts(chunk + more) == chunk_cuts(chunk) + chunk_cuts(more),
{
    let whole = chunk + more;
    lemma_split_chunk_extends(chunk, more);
    if let ChunkRead::Whole { tag, data, rest } = split_chunk(chunk) {
        let end = chunk.len() as int;
        assert(rest + more =~= more);
        assert(chunk_cuts(rest) =~= Seq::empty());
        assert(whole.take(4) =~= chunk.take(4));
        assert(whole.subrange(4, 8) =~= chunk.subrange(4, 8));
        assert(whole.subrange(end - 4, end) =~= chunk.subrange(end - 4, end));
        assert(chunk_cuts(whole) =~= chunk_cuts(chunk) + chunk_cuts(more));
    }
}

/// Reads a chunk part by part, or tells in which part of it the source gave up.
pub fn read_chunk<C: ByteSource>(io: &mut Channel<C>) -> (chunk: Result<Chunk, u8>)
    ensures
        reached(source_call::<C>(), *old(io), *final(io)),
        ({
            let h = final(io)@.since(old(io)@);
            &&& h.writes().len() == 0 && h.refused().len() == 0
            &&& h.reads() == chunk_cuts(h.got())
            &&& match chunk {
                Ok(chunk) => {
                    &&& h.short().len() == 0
                    &&& split_chunk(h.got()) == (ChunkRead::Whole {
                        tag: chunk.tag@,
                        data: chunk.data@,
                        rest: Seq::empty(),
                    })
                },
                Err(part) => {
                    &&& h.short().len() == 1
                    &&& h.fails_last()
                    &&& split_chunk(h.got()) == (ChunkRead::Cut {
                        part: part as int,
                        wanted: h.short()[0],
                        rest: Seq::empty(),
                    })
                },
            }
        }),
{
    let ghost h0 = io@;
    let ghost c0 = *io;
    proof {
        lemma_since_itself(h0);
        lemma_blank();
        lemma_since(h0, h0);
    }
    let len_bytes: Vec<u8> = match io.receive(4) {
        Some(bytes) => bytes,
        None => {
            assert(io@.since(h0).got() =~= Seq::<u8>::empty());
            assert(io@.since(h0).reads() =~= Seq::empty());
            return Err(1);
        },
    };
    let length: u32 = read_be32(&len_bytes, 0);
    let ghost c1 = *io;
    proof {
        lemma_since(h0, io@);
        assert(len_bytes@.subrange(0, 4) =~= len_bytes@);
    }
    let tag: Option<Vec<u8>> = io.receive(4);
    proof {
        lemma_reached(source_call::<C>(), c0, c1, *io);
    }
    let tag: Vec<u8> = match tag {
        Some(bytes) => bytes,
        None => {
            let ghost used = io@.since(h0).got();
            assert(used =~= len_bytes@);
            assert(used.skip(4) =~= Seq::<u8>::empty());
            assert(used.take(4) =~= len_bytes@);
            assert(io@.since(h0).reads() =~= seq![len_bytes@]);
            return Err(2);
        },
    };
    let ghost c2 = *io;
    proof {
        lemma_since(h0, io@);
    }
    let data: Vec<u8> = if length > 0 {
        let bytes: Option<Vec<u8>> = io.receive(length as usize);
        proof {
            lemma_reached(source_call::<C>(), c0, c2, *io);
        }
        match bytes {
            Some(bytes) => bytes,
            None => {
                let ghost used = io@.since(h0).got();
                assert(used =~= len_bytes@ + tag@);
                assert(used.take(4) =~= len_bytes@);
                assert(used.skip(4) =~= tag@);
                assert(tag@.skip(4) =~= Seq::<u8>::empty());
                assert(used.subrange(4, 8) =~= tag@);
                assert(io@.since(h0).reads() =~= seq![len_bytes@, tag@]);
                return Err(3);
            },
        }
    } else {
        Vec::new()
    };
    let ghost before_crc = io@.since(h0).got();
    proof {
        lemma_since(h0, io@);
        assert(before_crc =~= len_bytes@ + tag@ + data@);
        assert(before_crc.take(4) =~= len_bytes@);
        assert(before_crc.skip(4) =~= tag@ + data@);
        assert((tag@ + data@).take(4) =~= tag@);
        assert((tag@ + data@).skip(4) =~= data@);
        assert(data@.take(length as int) =~= data@);
        assert(data@.skip(length as int) =~= Seq::<u8>::empty());
        assert(before_crc.subrange(4, 8) =~= tag@);
        assert(before_crc.subrange(8, before_crc.len() as int) =~= data@);
        assert(io@.since(h0).reads() =~= seq![len_bytes@, tag@] + data_cut(data@));
    }
    let ghost c3 = *io;
    let crc: Option<Vec<u8>> = io.receive(4);
    proof {
        lemma_reached(source_call::<C>(), c0, c3, *io);
    }
    match crc {
        Some(crc_bytes) => {
            let ghost used = io@.since(h0).got();
            proof {
                assert(used =~= len_bytes@ + (tag@ + (data@ + crc_bytes@)));
                assert(used.take(4) =~= len_bytes@);
                assert(used.skip(4) =~= tag@ + (data@ + crc_bytes@));
                assert(used.skip(4).take(4) =~= tag@);
                assert(used.skip(4).skip(4) =~= data@ + crc_bytes@);
                assert((data@ + crc_bytes@).take(length as int) =~= data@);
                assert((data@ + crc_bytes@).skip(length as int) =~= crc_bytes@);
                assert(crc_bytes@.skip(4) =~= Seq::<u8>::empty());
                let end = used.len() as int;
                assert(used.subrange(4, 8) =~= tag@);
                assert(used.subrange(end - 4, end) =~= crc_bytes@);
                assert(chunk_cuts(Seq::<u8>::empty()) =~= Seq::empty());
                assert(io@.since(h0).reads() =~= seq![len_bytes@, tag@] + data_cut(data@) + seq![
                    crc_bytes@,
                ]);
                assert(io@.since(h0).reads() =~= chunk_cuts(used));
            }
        },
        None => {
            return Err(4);
        },
    }
    Ok(Chunk { tag, data })
}

/// Whether a chunk has a given type.
pub fn tag_is(tag: &Vec<u8>, wanted: &[u8; 4]) -> (same: bool)
    requires
        tag@.len() == 4,
    ensures
        same <==> tag@ == wanted@,
{
    let same = tag[0] == wanted[0] && tag[1] == wanted[1] && tag[2] == wanted[2] && tag[3]
        == wanted[3];
    assert(same ==> tag@ =~= wanted@);
    same
}

/// Where everything stands in a chunk: the length of its data in the first four bytes, its type
/// in the next four, its data, and in the last four bytes the checksum of its type and data.
pub proof fn chunk_has_its_parts(tag: Seq<u8>, data: Seq<u8>)
    requires
        tag.len() == 4,
        data.len() <= u32::MAX,
    ensures
        ({
            let bytes = chunk_bytes(tag, data);
            let n = data.len() as int;
            &&& bytes.len() == n + 12
            &&& bytes[0] * 16777216 + bytes[1] * 65536 + bytes[2] * 256 + bytes[3] == n
            &&& bytes.subrange(4, 8) == tag
            &&& bytes.subrange(8, 8 + n) == data
            &&& bytes[8 + n] * 16777216 + bytes[9 + n] * 65536 + bytes[10 + n] * 256 + bytes[11 + n]
                == crc_of(tag + data)
        }),
{
    let bytes = chunk_bytes(tag, data);
    let n = data.len() as int;
    crate::bytes::be32_has_the_digits(len32(data.len()));
    crate::bytes::be32_has_the_digits(crc_of(tag + data));
    assert(bytes.subrange(4, 8) =~= tag);
    assert(bytes.subrange(8, 8 + n) =~= data);
}

/// A chunk that breaks off is noticed in the part in which it does: the length, the type, the
/// data or the checksum. The read that the bytes do not fill is for all of that part, and what
/// there is of the part is left over.
#[verifier::rlimit(30)]
pub proof fn cut_is_noticed_in_its_part(tag: Seq<u8>, data: Seq<u8>, len: int)
    requires
        tag.len() == 4,
        data.len() <= u32::MAX,
        0 <= len < data.len() + 12,
    ensures
        ({
            let n = data.len() as int;
            let bytes = chunk_bytes(tag, data).take(len);
            split_chunk(bytes) == if len < 4 {
                ChunkRead::Cut { part: 1, wanted: 4, rest: bytes }
            } else if len < 8 {
                ChunkRead::Cut { part: 2, wanted: 4, rest: bytes.skip(4) }
            } else if len < 8 + n {
                ChunkRead::Cut { part: 3, wanted: n as nat, rest: bytes.skip(8) }
            } else {
                ChunkRead::Cut { part: 4, wanted: 4, rest: bytes.skip(8 + n) }
            }
        }),
{
    let n = data.len() as int;
    let all = chunk_bytes(tag, data);
    let bytes = all.take(len);
    crate::bytes::be32_round_trip(len32(data.len()));
    if len >= 4 {
        assert(bytes.take(4) =~= be32(len32(data.len())));
        if len >= 8 {
            assert(bytes.skip(4).skip(4) =~= bytes.skip(8));
            if len >= 8 + n {
                assert(bytes.skip(8).skip(n) =~= bytes.skip(8 + n));
            }
        }
    }
}

/// A chunk is written in four calls, or in three where it has no data: its length, its type, its
/// data and its checksum.
pub proof fn chunk_is_written_in_its_parts(tag: Seq<u8>, data: Seq<u8>)
    requires
        tag.len() == 4,
        data.len() <= u32::MAX,
    ensures
        ({
            let bytes = chunk_bytes(tag, data);
            let n = data.len() as int;
            &&& n > 0 ==> chunk_parts(tag, data) == seq![
                bytes.subrange(0, 4),
                tag,
                data,
                bytes.subrange(8 + n, 12 + n),
            ]
            &&& n == 0 ==> chunk_parts(tag, data) == seq![
                bytes.subrange(0, 4),
                tag,
                bytes.subrange(8, 12),
            ]
        }),
{
    let bytes = chunk_bytes(tag, data);
    let n = data.len() as int;
    assert(bytes.subrange(0, 4) =~= be32(len32(data.len())));
    assert(bytes.subrange(8 + n, 12 + n) =~= be32(crc_of(tag + data)));
}

/// A chunk is read in four calls, or in three where it has no data: its length, its type, its
/// data and its checksum. What follows it is read after it.
#[verifier::rlimit(50)]
pub proof fn chunk_is_read_in_its_parts(tag: Seq<u8>, data: Seq<u8>, rest: Seq<u8>)
    requires
        tag.len() == 4,
        data.len() <= u32::MAX,
    ensures
        ({
            let bytes = chunk_bytes(tag, data);
            let n = data.len() as int;
            &&& n > 0 ==> chunk_cuts(bytes + rest) == seq![
                bytes.subrange(0, 4),
                tag,
                data,
                bytes.subrange(8 + n, 12 + n),
            ] + chunk_cuts(rest)
            &&& n == 0 ==> chunk_cuts(bytes + rest) == seq![
                bytes.subrange(0, 4),
                tag,
                bytes.subrange(8, 12),
            ] + chunk_cuts(rest)
        }),
{
    let bytes = chunk_bytes(tag, data);
    let whole = bytes + rest;
    let n = data.len() as int;
    split_undoes_chunk(tag, data, rest);
    lemma_parts_in_place(tag, data, rest);
    lemma_cuts_of_whole(
        whole,
        bytes.subrange(0, 4),
        tag,
        data,
        bytes.subrange(8 + n, 12 + n),
        rest,
    );
}

/// Where the parts of a chunk stand, with whatever follows it.
proof fn lemma_parts_in_place(tag: Seq<u8>, data: Seq<u8>, rest: Seq<u8>)
    requires
        tag.len() == 4,
        data.len() <= u32::MAX,
    ensures
        ({
            let bytes = chunk_bytes(tag, data);
            let whole = bytes + rest;
            let n = data.len() as int;
            &&& whole.len() == 12 + n + rest.len()
            &&& whole.take(4) == bytes.subrange(0, 4)
            &&& whole.subrange(4, 8) == tag
            &&& whole.subrange(8 + n, 12 + n) == bytes.subrange(8 + n, 12 + n)
        }),
{
    let bytes = chunk_bytes(tag, data);
    let whole = bytes + rest;
    let n = data.len() as int;
    assert(whole.take(4) =~= bytes.subrange(0, 4));
    assert(whole.subrange(4, 8) =~= tag);
    assert(whole.subrange(8 + n, 12 + n) =~= bytes.subrange(8 + n, 12 + n));
}

/// The parts of bytes that start with a whole chunk.
proof fn lemma_cuts_of_whole(
    whole: Seq<u8>,
    len: Seq<u8>,
    tag: Seq<u8>,
    data: Seq<u8>,
    crc: Seq<u8>,
    rest: Seq<u8>,
)
    requires
        split_chunk(whole) == (ChunkRead::Whole { tag, data, rest }),
        whole.len() == 12 + data.len() + rest.len(),
        whole.take(4) == len,
        whole.subrange(4, 8) == tag,
        whole.subrange(8 + data.len() as int, 12 + data.len() as int) == crc,
    ensures
        data.len() > 0 ==> chunk_cuts(whole) == seq![len, tag, data, crc] + chunk_cuts(rest),
        data.len() == 0 ==> chunk_cuts(whole) == seq![len, tag, crc] + chunk_cuts(rest),
{
    let head = seq![len, tag];
    assert(chunk_cuts(whole) == head + data_cut(data) + seq![crc] + chunk_cuts(rest));
    if data.len() > 0 {
        assert(head + seq![data] + seq![crc] =~= seq![len, tag, data, crc]);
    } else {
        assert(head + Seq::<Seq<u8>>::empty() + seq![crc] =~= seq![len, tag, crc]);
    }
}

/// Of a chunk that breaks off, the parts that are there in full are read.
#[verifier::rlimit(30)]
pub proof fn cut_chunk_is_read_as_far_as_it_goes(tag: Seq<u8>, data: Seq<u8>, len: int)
    requires
        tag.len() == 4,
        data.len() <= u32::MAX,
        0 <= len < data.len() + 12,
    ensures
        ({
            let bytes = chunk_bytes(tag, data);
            let n = data.len() as int;
            let cuts = chunk_cuts(bytes.take(len));
            &&& len < 4 ==> cuts.len() == 0
            &&& 4 <= len < 8 ==> cuts == seq![bytes.subrange(0, 4)]
            &&& 8 <= len < 8 + n || len >= 8 && n == 0 ==> cuts == seq![bytes.subrange(0, 4), tag]
            &&& len >= 8 + n && n > 0 ==> cuts == seq![bytes.subrange(0, 4), tag, data]
        }),
{
    let bytes = chunk_bytes(tag, data);
    let n = data.len() as int;
    let part = bytes.take(len);
    cut_is_noticed_in_its_part(tag, data, len);
    if len >= 4 {
        assert(part.take(4) =~= bytes.subrange(0, 4));
    }
    if len >= 8 {
        assert(part.subrange(4, 8) =~= tag);
        let head = seq![part.take(4), part.subrange(4, 8)];
        if len >= 8 + n {
            assert(part.len() - part.skip(8 + n).len() == 8 + n);
            assert(part.subrange(8, 8 + n) =~= data);
            if n > 0 {
                assert(head + data_cut(data) =~= seq![bytes.subrange(0, 4), tag, data]);
            } else {
                assert(head + data_cut(data) =~= head);
            }
        }
    }
}

} // verus!
