//! The rows of an image may be read in parts.

use crate::bytes::splice;
use crate::channel::{delivered, lemma_since_joins};
use crate::netpbm::token_is_settled;
use crate::ppmpam::{
    bytes_on, played, read_samples, read_token, rows_read, sample_form, Format, Header, Outcome,
    PpmPamDecoder, PpmPamFailure, Samples, Tape,
};
use crate::text::parsed_u32;
use vstd::prelude::*;

verus! {

/// Reading samples after others have been read.
proof fn lemma_samples_join(
    stored: Seq<u8>,
    count: nat,
    further: nat,
    wide: bool,
    tape: Tape,
    more: Tape,
)
    requires
        read_samples(stored, count, wide, tape) is Done,
    ensures
        read_samples(stored, count, wide, tape) matches Samples::Done { stored: read, rest }
            && read_samples(stored, count + further, wide, tape + more) == read_samples(
            read,
            further,
            wide,
            rest + more,
        ),
    decreases count,
{
    if count > 0 {
        token_is_settled(tape, more);
        if let Outcome::Done { value, rest } = read_token(tape) {
            if let Some(number) = parsed_u32(value) {
                lemma_samples_join(
                    stored + sample_form(number, wide),
                    (count - 1) as nat,
                    further,
                    wide,
                    rest,
                    more,
                );
            }
        }
    }
}

/// What is stored before some samples does not matter to them.
proof fn lemma_samples_after(
    earlier: Seq<u8>,
    stored: Seq<u8>,
    count: nat,
    wide: bool,
    tape: Tape,
)
    ensures
        read_samples(earlier + stored, count, wide, tape) == (match read_samples(
            stored,
            count,
            wide,
            tape,
        ) {
            Samples::Done { stored, rest } => Samples::Done { stored: earlier + stored, rest },
            Samples::Failed { stored, message, rest } => Samples::Failed {
                stored: earlier + stored,
                message,
                rest,
            },
            Samples::More => Samples::More,
        }),
    decreases count,
{
    if count > 0 {
        if let Outcome::Done { value, rest } = read_token(tape) {
            if let Some(number) = parsed_u32(value) {
                let form = sample_form(number, wide);
                assert(earlier + stored + form =~= earlier + (stored + form));
                lemma_samples_after(earlier, stored + form, (count - 1) as nat, wide, rest);
            }
        }
    }
}

/// Each sample takes one byte, or two if samples are wide.
proof fn lemma_samples_len(stored: Seq<u8>, count: nat, wide: bool, tape: Tape)
    ensures
        read_samples(stored, count, wide, tape) matches Samples::Done { stored: read, rest }
            ==> read.len() == stored.len() + count * (if wide {
            2nat
        } else {
            1nat
        }),
    decreases count,
{
    let size = if wide {
        2nat
    } else {
        1nat
    };
    if count > 0 {
        assert(count * size == (count - 1) * size + size) by (nonlinear_arith);
        if let Outcome::Done { value, rest } = read_token(tape) {
            if let Some(number) = parsed_u32(value) {
                lemma_samples_len(
                    stored + sample_form(number, wide),
                    (count - 1) as nat,
                    wide,
                    rest,
                );
            }
        }
    } else {
        assert(count * size == 0) by (nonlinear_arith)
            requires
                count == 0,
        ;
    }
}

/// The samples of some rows, and their bytes.
proof fn lemma_row_sizes(header: Header, rows: int)
    requires
        rows >= 0,
    ensures
        rows * (header.width * header.depth) >= 0,
        rows * (header.width * header.depth) * header.sample_bytes() == rows * header.row_bytes(),
{
    let samples = header.width * header.depth;
    assert(samples >= 0) by (nonlinear_arith)
        requires
            samples == header.width * header.depth,
    ;
    assert(rows * samples >= 0) by (nonlinear_arith)
        requires
            rows >= 0,
            samples >= 0,
    ;
    let size = header.sample_bytes();
    assert(rows * samples * size == rows * (samples * size)) by (nonlinear_arith);
}

/// Whether the bytes `stored` are what `used` gives for `rows` rows.
spec fn rows_stored(header: Header, rows: int, used: Tape, stored: Seq<u8>) -> bool {
    &&& stored.len() == rows * header.row_bytes()
    &&& header.format == Format::PpmBinary || header.format == Format::Pam ==> used == delivered(
        stored,
    )
    &&& header.format == Format::PpmAscii ==> read_samples(
        Seq::empty(),
        (rows * (header.width * header.depth)) as nat,
        header.maxval > 255,
        used,
    ) == (Samples::Done { stored, rest: Seq::empty() })
}

/// What a read that succeeded has stored.
proof fn lemma_rows_stored<R>(
    before: PpmPamDecoder<R>,
    after: PpmPamDecoder<R>,
    wanted: u32,
    buffer: Seq<u8>,
    filled: Seq<u8>,
    rows: u32,
)
    requires
        before.wf(),
        rows_read(before, after, wanted, buffer, filled, Ok(rows)),
        played(before.reader@, after.reader@).len() < u64::MAX,
    ensures
        after.wf(),
        rows == before.metadata@.rows_left(before.current_row, wanted),
        rows_stored(
            before.metadata@,
            rows as int,
            played(before.reader@, after.reader@),
            filled.take(rows * before.bytes_per_row),
        ),
{
    let header = before.metadata@;
    let used = played(before.reader@, after.reader@);
    let stored = filled.take(rows * before.bytes_per_row);
    lemma_row_sizes(header, rows as int);
    if before.current_row >= header.height {
        assert(rows * before.bytes_per_row == 0 && rows * (header.width * header.depth) == 0)
            by (nonlinear_arith)
            requires
                rows == 0,
        ;
        assert(used =~= Seq::empty());
        assert(stored =~= Seq::empty());
        assert(delivered(stored) =~= Seq::empty());
    } else if header.format == Format::PpmAscii {
        let count = (rows * (header.width * header.depth)) as nat;
        lemma_samples_len(Seq::empty(), count, header.maxval > 255, used);
        if let Samples::Done { stored: read, rest } = read_samples(
            Seq::empty(),
            count,
            header.maxval > 255,
            used,
        ) {
            assert(read.len() == rows * header.row_bytes());
            assert(stored =~= read);
            assert(rest =~= Seq::empty());
        }
    } else if header.format == Format::PpmBinary || header.format == Format::Pam {
        assert(stored =~= bytes_on(used));
    }
}

/// Rows that are stored one after the other.
proof fn lemma_rows_join(
    header: Header,
    first: int,
    then: int,
    used: Tape,
    more: Tape,
    stored: Seq<u8>,
    further: Seq<u8>,
)
    requires
        first >= 0,
        then >= 0,
        rows_stored(header, first, used, stored),
        rows_stored(header, then, more, further),
    ensures
        rows_stored(header, first + then, used + more, stored + further),
{
    let row = header.row_bytes();
    let samples = header.width * header.depth;
    assert((first + then) * row == first * row + then * row) by (nonlinear_arith);
    assert((first + then) * samples == first * samples + then * samples) by (nonlinear_arith);
    lemma_row_sizes(header, first);
    lemma_row_sizes(header, then);
    assert(delivered(stored + further) =~= delivered(stored) + delivered(further));
    if header.format == Format::PpmAscii {
        let wide = header.maxval > 255;
        let none = Seq::<u8>::empty();
        let a = (first * samples) as nat;
        let b = (then * samples) as nat;
        lemma_samples_join(none, a, b, wide, used, more);
        assert(Seq::empty() + more =~= more);
        lemma_samples_after(stored, none, b, wide, more);
        assert(stored + none =~= stored);
    }
}

/// Rows that are read in two parts are the rows that are read at once: where two reads of
/// `first` and of `then` rows have succeeded, a read of `first + then` rows from the same
/// input succeeds, gives as many rows, and stores what the two have stored, one after the
/// other.
///
/// The numbers must be within reach: the sum of the rows and their bytes must have
/// representations, the buffer must hold them, and fewer than 2^64 - 1 bytes may be read.
pub proof fn rows_may_be_read_in_parts<R>(
    start: PpmPamDecoder<R>,
    middle: PpmPamDecoder<R>,
    end: PpmPamDecoder<R>,
    first: u32,
    then: u32,
    buffers: (Seq<u8>, Seq<u8>, Seq<u8>),
    filled: (Seq<u8>, Seq<u8>, Seq<u8>),
    rows: (u32, u32),
    result: Result<u32, PpmPamFailure>,
)
    requires
        start.wf(),
        rows_read(start, middle, first, buffers.0, filled.0, Ok(rows.0)),
        rows_read(middle, end, then, buffers.1, filled.1, Ok(rows.1)),
        first + then <= u32::MAX,
        (rows.0 + rows.1) * start.bytes_per_row <= usize::MAX,
        (rows.0 + rows.1) * start.bytes_per_row <= buffers.2.len(),
        played(start.reader@, end.reader@).len() < u64::MAX,
    ensures
        rows_read(start, end, (first + then) as u32, buffers.2, filled.2, result) <==> {
            let stored = filled.0.take(rows.0 * start.bytes_per_row) + filled.1.take(
                rows.1 * start.bytes_per_row,
            );
            &&& result == Ok::<u32, PpmPamFailure>((rows.0 + rows.1) as u32)
            &&& filled.2 == splice(buffers.2, 0, stored)
        },
{
    let header = start.metadata@;
    let used = played(start.reader@, end.reader@);
    let stored = filled.0.take(rows.0 * start.bytes_per_row) + filled.1.take(
        rows.1 * start.bytes_per_row,
    );
    lemma_since_joins(start.reader@, middle.reader@, end.reader@);
    lemma_rows_stored(start, middle, first, buffers.0, filled.0, rows.0);
    lemma_rows_stored(middle, end, then, buffers.1, filled.1, rows.1);
    lemma_rows_join(
        header,
        rows.0 as int,
        rows.1 as int,
        played(start.reader@, middle.reader@),
        played(middle.reader@, end.reader@),
        filled.0.take(rows.0 * start.bytes_per_row),
        filled.1.take(rows.1 * start.bytes_per_row),
    );
    assert(bytes_on(delivered(stored)) =~= stored);
    if start.current_row >= header.height {
        assert(stored.len() == 0) by (nonlinear_arith)
            requires
                stored.len() == (rows.0 + rows.1) * header.row_bytes(),
                rows.0 == 0,
                rows.1 == 0,
        ;
        assert(splice(buffers.2, 0, stored) =~= buffers.2);
    }
}

/// Two tapes from one source that hold the samples of the same number of rows are the same.
proof fn lemma_same_rows(
    header: Header,
    rows: int,
    source: Tape,
    a: Tape,
    b: Tape,
    stored_a: Seq<u8>,
    stored_b: Seq<u8>,
)
    requires
        rows >= 0,
        a.is_prefix_of(source),
        b.is_prefix_of(source),
        a.len() <= b.len(),
        rows_stored(header, rows, a, stored_a),
        rows_stored(header, rows, b, stored_b),
        header.format != Format::Unknown,
    ensures
        stored_a == stored_b,
        a == b,
{
    let more = b.skip(a.len() as int);
    assert(b =~= a + more);
    if header.format == Format::PpmAscii {
        let count = (rows * (header.width * header.depth)) as nat;
        let nothing: Tape = Seq::empty();
        lemma_samples_join(Seq::empty(), count, 0, header.maxval > 255, a, more);
        assert(nothing + more =~= more);
        assert(more =~= nothing);
        assert(a =~= b);
    } else {
        assert(more.len() == 0);
        assert(a =~= b);
        assert forall|i: int| 0 <= i < stored_a.len() implies stored_a[i] == stored_b[i] by {
            assert(a[i] == Ok::<u8, nat>(stored_a[i]));
            assert(b[i] == Ok::<u8, nat>(stored_b[i]));
        }
        assert(stored_a =~= stored_b);
    }
}

/// Two images over the same source give the same rows, whether they are read in two parts or
/// at once: as many rows, the same bytes, and the same row comes next.
///
/// The sum of the rows must have a representation, and fewer than 2^64 - 1 bytes may be read.
pub proof fn parts_and_whole_agree<R>(
    start: PpmPamDecoder<R>,
    middle: PpmPamDecoder<R>,
    end: PpmPamDecoder<R>,
    other: PpmPamDecoder<R>,
    after: PpmPamDecoder<R>,
    first: u32,
    then: u32,
    buffers: (Seq<u8>, Seq<u8>, Seq<u8>),
    filled: (Seq<u8>, Seq<u8>, Seq<u8>),
    rows: (u32, u32, u32),
    source: Tape,
)
    requires
        start.wf(),
        other.wf(),
        other.metadata@ == start.metadata@,
        other.current_row == start.current_row,
        first + then <= u32::MAX,
        rows_read(start, middle, first, buffers.0, filled.0, Ok(rows.0)),
        rows_read(middle, end, then, buffers.1, filled.1, Ok(rows.1)),
        rows_read(other, after, (first + then) as u32, buffers.2, filled.2, Ok(rows.2)),
        played(start.reader@, end.reader@).is_prefix_of(source),
        played(other.reader@, after.reader@).is_prefix_of(source),
        source.len() < u64::MAX,
    ensures
        rows.2 == rows.0 + rows.1,
        filled.2.take(rows.2 * start.bytes_per_row) == filled.0.take(rows.0 * start.bytes_per_row)
            + filled.1.take(rows.1 * start.bytes_per_row),
        after.current_row == end.current_row,
{
    let header = start.metadata@;
    let row = start.bytes_per_row;
    let used = played(start.reader@, end.reader@);
    let once = played(other.reader@, after.reader@);
    let stored = filled.0.take(rows.0 * row) + filled.1.take(rows.1 * row);
    let at_once = filled.2.take(rows.2 * row);
    lemma_since_joins(start.reader@, middle.reader@, end.reader@);
    lemma_rows_stored(start, middle, first, buffers.0, filled.0, rows.0);
    lemma_rows_stored(middle, end, then, buffers.1, filled.1, rows.1);
    lemma_rows_stored(other, after, (first + then) as u32, buffers.2, filled.2, rows.2);
    lemma_rows_join(
        header,
        rows.0 as int,
        rows.1 as int,
        played(start.reader@, middle.reader@),
        played(middle.reader@, end.reader@),
        filled.0.take(rows.0 * row),
        filled.1.take(rows.1 * row),
    );
    assert(rows.2 == rows.0 + rows.1);
    if header.format == Format::Unknown {
        assert(rows.2 * row == 0) by (nonlinear_arith)
            requires
                rows.2 == 0,
        ;
        assert(at_once =~= stored);
    } else if used.len() <= once.len() {
        lemma_same_rows(header, rows.2 as int, source, used, once, stored, at_once);
    } else {
        lemma_same_rows(header, rows.2 as int, source, once, used, at_once, stored);
    }
}

} // verus!
