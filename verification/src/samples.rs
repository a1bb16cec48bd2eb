//! What image files say: the fields of their headers, and the samples of their rows.

use crate::bytes::{splice, splice_changes_its_part_alone};
use crate::channel::{delivered, History};
use crate::netpbm::{
    lemma_delivered, lemma_delivered_joins, lemma_spaced_read, reader_after, text_of, Spaced,
};
use crate::ppmpam::{
    bytes_on, fresh_header, header_result, named, pam_field, pam_lines, played, ppm_tokens,
    read_header, read_samples, read_token, rows_read, sample_form, Field, Format, Header, HeaderError,
    Outcome, PpmPamDecoder, PpmPamFailure, Samples, Tape,
};
use crate::text::parsed_u32;
use vstd::prelude::*;
use vstd::utf8::{decode_utf8, encode_utf8};

verus! {

/// A stored sample stands for the number of its token: two bytes, most significant first, for it
/// modulo 65536, or one byte for it modulo 256. A number that fits is stored as it is.
pub proof fn sample_stands_for_its_number(value: u32)
    ensures
        sample_form(value, true).len() == 2,
        sample_form(value, true)[0] * 256 + sample_form(value, true)[1] == value % 65536,
        value <= 65535 ==> sample_form(value, true)[0] * 256 + sample_form(value, true)[1] == value,
        sample_form(value, false).len() == 1,
        sample_form(value, false)[0] == value % 256,
        value <= 255 ==> sample_form(value, false)[0] == value,
{
    assert(value % 65536 == value / 256 % 256 * 256 + value % 256) by (nonlinear_arith);
}

/// The bytes of a sample: two where the largest sample does not fit in one.
pub open spec fn sample_size(header: Header) -> int {
    if header.maxval >= 256 {
        2
    } else {
        1
    }
}

/// A row holds all samples of its pixels.
pub proof fn rows_hold_all_samples(header: Header)
    ensures
        header.sample_bytes() == sample_size(header),
        header.row_bytes() == header.width * header.depth * sample_size(header),
{
}

/// As many rows are read as were asked for, and no more than are left.
pub proof fn rows_end_with_the_image(header: Header, row: u32, wanted: u32)
    requires
        row <= header.height,
    ensures
        header.rows_left(row, wanted) <= wanted,
        header.rows_left(row, wanted) <= header.height - row,
        header.rows_left(row, wanted) == wanted || header.rows_left(row, wanted) == header.height
            - row,
{
}

/// The tuple type keeps the first 63 bytes of its name, and where the name is shorter what stood
/// after it.
pub proof fn tuple_type_keeps_its_name(tuple_type: Seq<u8>, name: Seq<u8>, i: int)
    requires
        tuple_type.len() == 64,
        0 <= i < 64,
    ensures
        named(tuple_type, name).len() == 64,
        i < name.len() && i < 63 ==> named(tuple_type, name)[i] == name[i],
        i >= name.len() || i == 63 ==> named(tuple_type, name)[i] == tuple_type[i],
{
}

/// What the lines of a PAM header do: a line sets the field that its first word names to the
/// number in its second word, and no other field.
pub proof fn lines_set_the_field_they_name(header: Header, parts: Seq<Seq<char>>, number: u32)
    requires
        parts.len() >= 2,
        parsed_u32(parts[1]) == Some(number),
    ensures
        parts[0] == "WIDTH"@ ==> pam_field(header, parts) == Field::Keep(
            Header {
                format: header.format,
                width: number,
                height: header.height,
                maxval: header.maxval,
                depth: header.depth,
                tuple_type: header.tuple_type,
            },
        ),
        parts[0] == "HEIGHT"@ ==> pam_field(header, parts) == Field::Keep(
            Header {
                format: header.format,
                width: header.width,
                height: number,
                maxval: header.maxval,
                depth: header.depth,
                tuple_type: header.tuple_type,
            },
        ),
        parts[0] == "DEPTH"@ ==> pam_field(header, parts) == Field::Keep(
            Header {
                format: header.format,
                width: header.width,
                height: header.height,
                maxval: header.maxval,
                depth: number,
                tuple_type: header.tuple_type,
            },
        ),
        parts[0] == "MAXVAL"@ ==> pam_field(header, parts) == Field::Keep(
            Header {
                format: header.format,
                width: header.width,
                height: header.height,
                maxval: number,
                depth: header.depth,
                tuple_type: header.tuple_type,
            },
        ),
{
    lemma_keys_differ();
}

/// A line with the word `TUPLTYPE` sets the tuple type to its second word, and a line with the
/// word `ENDHDR` ends the header. Lines that start with another word, and lines without words,
/// change nothing.
pub proof fn lines_name_the_tuple_type_and_the_end(header: Header, parts: Seq<Seq<char>>)
    ensures
        parts.len() >= 2 && parts[0] == "TUPLTYPE"@ ==> pam_field(header, parts) == Field::Keep(
            Header {
                format: header.format,
                width: header.width,
                height: header.height,
                maxval: header.maxval,
                depth: header.depth,
                tuple_type: named(header.tuple_type, encode_utf8(parts[1])),
            },
        ),
        parts.len() >= 1 && parts[0] == "ENDHDR"@ ==> pam_field(header, parts) is End,
        parts.len() == 0 || (parts[0] != "WIDTH"@ && parts[0] != "HEIGHT"@ && parts[0] != "DEPTH"@
            && parts[0] != "MAXVAL"@ && parts[0] != "TUPLTYPE"@ && parts[0] != "ENDHDR"@)
            ==> pam_field(header, parts) == Field::Keep(header),
{
    lemma_keys_differ();
}

/// A line that lacks its second word is reported, and so is one whose second word is no number.
pub proof fn wrong_lines_are_reported(header: Header, parts: Seq<Seq<char>>)
    requires
        parts.len() >= 1,
    ensures
        parts.len() < 2 ==> {
            &&& parts[0] == "WIDTH"@ ==> pam_field(header, parts) == Field::Bad(
                "Malformed WIDTH configuration"@,
            )
            &&& parts[0] == "HEIGHT"@ ==> pam_field(header, parts) == Field::Bad(
                "Malformed HEIGHT configuration"@,
            )
            &&& parts[0] == "DEPTH"@ ==> pam_field(header, parts) == Field::Bad(
                "Malformed DEPTH configuration"@,
            )
            &&& parts[0] == "MAXVAL"@ ==> pam_field(header, parts) == Field::Bad(
                "Malformed MAXVAL configuration"@,
            )
            &&& parts[0] == "TUPLTYPE"@ ==> pam_field(header, parts) == Field::Bad(
                "Malformed TUPLTYPE attributes"@,
            )
        },
        parts.len() >= 2 && parsed_u32(parts[1]) is None ==> {
            &&& parts[0] == "WIDTH"@ ==> pam_field(header, parts) == Field::Bad(
                "Invalid PAM width values"@,
            )
            &&& parts[0] == "HEIGHT"@ ==> pam_field(header, parts) == Field::Bad(
                "Invalid PAM height values"@,
            )
            &&& parts[0] == "DEPTH"@ ==> pam_field(header, parts) == Field::Bad(
                "Invalid PAM depth layout"@,
            )
            &&& parts[0] == "MAXVAL"@ ==> pam_field(header, parts) == Field::Bad(
                "Invalid PAM maxval range"@,
            )
        },
{
    lemma_keys_differ();
}

proof fn lemma_keys_differ()
    ensures
        "WIDTH"@ != "HEIGHT"@ && "WIDTH"@ != "DEPTH"@ && "WIDTH"@ != "MAXVAL"@ && "WIDTH"@
            != "TUPLTYPE"@ && "WIDTH"@ != "ENDHDR"@,
        "HEIGHT"@ != "DEPTH"@ && "HEIGHT"@ != "MAXVAL"@ && "HEIGHT"@ != "TUPLTYPE"@ && "HEIGHT"@
            != "ENDHDR"@,
        "DEPTH"@ != "MAXVAL"@ && "DEPTH"@ != "TUPLTYPE"@ && "DEPTH"@ != "ENDHDR"@,
        "MAXVAL"@ != "TUPLTYPE"@ && "MAXVAL"@ != "ENDHDR"@,
        "TUPLTYPE"@ != "ENDHDR"@,
{
    reveal_strlit("WIDTH");
    reveal_strlit("HEIGHT");
    reveal_strlit("DEPTH");
    reveal_strlit("MAXVAL");
    reveal_strlit("TUPLTYPE");
    reveal_strlit("ENDHDR");
    assert("WIDTH"@[0] == 'W');
    assert("HEIGHT"@[0] == 'H');
    assert("DEPTH"@[0] == 'D');
    assert("MAXVAL"@[0] == 'M');
    assert("TUPLTYPE"@[0] == 'T');
    assert("ENDHDR"@[0] == 'E');
}

/// A header in which nothing is said yet: all numbers are zero, and so are the 64 bytes of the
/// tuple type.
pub open spec fn says_nothing(header: Header, format: Format) -> bool {
    &&& header.format == format
    &&& header.width == 0 && header.height == 0 && header.maxval == 0 && header.depth == 0
    &&& header.tuple_type.len() == 64
    &&& forall|i: int| 0 <= i < 64 ==> #[trigger] header.tuple_type[i] == 0
}

/// The two bytes of the signature tell the format: after "P7" come the lines of a PAM header in
/// which nothing is said yet; anything but "P3", "P6" and "P7" is reported, and so is a source
/// that does not have two bytes.
pub proof fn signature_tells_the_format(a: u8, b: u8, rest: Tape)
    ensures
        a == 80 && b == 55 ==> exists|fresh: Header|
            says_nothing(fresh, Format::Pam) && read_header(delivered(seq![a, b]) + rest)
                == #[trigger] pam_lines(fresh, rest),
        a != 80 || (b != 51 && b != 54 && b != 55) ==> read_header(delivered(seq![a, b]) + rest)
            == (Outcome::<Header>::Failed {
            message: "Invalid format identifier: signature must be P3, P6, or P7"@,
            rest,
        }),
        read_header(seq![Err::<u8, nat>(2)] + rest) == (Outcome::<Header>::Failed {
            message: "Failed to verify image magic bytes"@,
            rest,
        }),
{
    let tape = delivered(seq![a, b]) + rest;
    assert(tape[0] == Ok::<u8, nat>(a) && tape[1] == Ok::<u8, nat>(b));
    assert(tape.skip(2) =~= rest);
    let fresh = fresh_header(Format::Pam);
    assert(says_nothing(fresh, Format::Pam));
    let failed = seq![Err::<u8, nat>(2)] + rest;
    assert(failed[0] == Err::<u8, nat>(2));
    assert(failed.skip(1) =~= rest);
}

/// A PPM header is its signature, "P3" or "P6", and three words: the width, the height and the
/// largest sample. Its pixels have three samples. The first of the words that is no number is
/// reported.
pub proof fn ppm_header_is_three_numbers(ascii: bool, entries: Seq<Spaced>, rest: Tape)
    requires
        entries.len() == 3,
        forall|i: int| 0 <= i < 3 ==> (#[trigger] entries[i]).wf(),
    ensures
        ({
            let signature = if ascii {
                seq![80u8, 51u8]
            } else {
                seq![80u8, 54u8]
            };
            let read = read_header(delivered(signature + text_of(entries)) + rest);
            let width = parsed_u32(decode_utf8(entries[0].word));
            let height = parsed_u32(decode_utf8(entries[1].word));
            let maxval = parsed_u32(decode_utf8(entries[2].word));
            &&& width is Some && height is Some && maxval is Some ==> (read matches Outcome::Done {
                value,
                rest: left,
            } && {
                &&& left == rest
                &&& value.format == if ascii {
                    Format::PpmAscii
                } else {
                    Format::PpmBinary
                }
                &&& Some(value.width) == width
                &&& Some(value.height) == height
                &&& Some(value.maxval) == maxval
                &&& value.depth == 3
                &&& value.tuple_type.len() == 64
                &&& forall|i: int| 0 <= i < 64 ==> #[trigger] value.tuple_type[i] == 0
            })
            &&& width is None ==> read == (Outcome::<Header>::Failed {
                message: "Invalid width integer"@,
                rest,
            })
            &&& width is Some && height is None ==> read == (Outcome::<Header>::Failed {
                message: "Invalid height integer"@,
                rest,
            })
            &&& width is Some && height is Some && maxval is None ==> read == (Outcome::<
                Header,
            >::Failed { message: "Invalid maxval integer"@, rest })
        }),
{
    let signature = if ascii {
        seq![80u8, 51u8]
    } else {
        seq![80u8, 54u8]
    };
    let one = entries.drop_first();
    let two = one.drop_first();
    assert(entries[0].wf() && entries[1].wf() && entries[2].wf());
    let third = delivered(entries[2].bytes()) + rest;
    let second = delivered(entries[1].bytes()) + third;
    let first = delivered(entries[0].bytes()) + second;
    assert(two.drop_first() =~= Seq::empty());
    assert(text_of(two.drop_first()) =~= Seq::empty());
    assert(text_of(two) =~= entries[2].bytes());
    assert(text_of(one) == entries[1].bytes() + text_of(two));
    assert(text_of(entries) == entries[0].bytes() + text_of(one));
    let tape = delivered(signature + text_of(entries)) + rest;
    assert(tape =~= delivered(signature) + first);
    assert(tape[0] == Ok::<u8, nat>(signature[0]) && tape[1] == Ok::<u8, nat>(signature[1]));
    assert(tape.skip(2) =~= first);
    lemma_spaced_read(entries[0], second);
    lemma_spaced_read(entries[1], third);
    lemma_spaced_read(entries[2], rest);
    let format = if ascii {
        Format::PpmAscii
    } else {
        Format::PpmBinary
    };
    assert(read_header(tape) == ppm_tokens(format, first));
}

/// Whether the words of `entries` are the numbers `values`.
pub open spec fn words_are_numbers(entries: Seq<Spaced>, values: Seq<u32>) -> bool {
    &&& entries.len() == values.len()
    &&& forall|i: int|
        0 <= i < entries.len() ==> (#[trigger] entries[i]).wf() && parsed_u32(
            decode_utf8(entries[i].word),
        ) == Some(values[i])
}

/// Whether `bytes` hold the samples `values`: two bytes each, most significant first, modulo
/// 65536, or one byte each, modulo 256.
pub open spec fn holds_samples(bytes: Seq<u8>, values: Seq<u32>, wide: bool) -> bool {
    &&& wide ==> bytes.len() >= 2 * values.len() && forall|i: int|
        0 <= i < values.len() ==> bytes[2 * i] * 256 + bytes[2 * i + 1] == #[trigger] values[i]
            % 65536
    &&& !wide ==> bytes.len() >= values.len() && forall|i: int|
        0 <= i < values.len() ==> bytes[i] == #[trigger] values[i] % 256
}

/// Samples are read one after the other, one for each word, and what follows them is left over.
proof fn lemma_samples_read(
    stored: Seq<u8>,
    done: Seq<u32>,
    entries: Seq<Spaced>,
    values: Seq<u32>,
    wide: bool,
    rest: Tape,
) -> (all: Seq<u8>)
    requires
        words_are_numbers(entries, values),
        holds_samples(stored, done, wide),
        stored.len() == done.len() * (if wide {
            2int
        } else {
            1
        }),
    ensures
        read_samples(stored, entries.len(), wide, delivered(text_of(entries)) + rest) == (
        Samples::Done { stored: all, rest }),
        holds_samples(all, done + values, wide),
        all.len() == (done.len() + values.len()) * (if wide {
            2int
        } else {
            1
        }),
    decreases entries.len(),
{
    if entries.len() == 0 {
        lemma_delivered(text_of(entries), rest);
        assert(done + values =~= done);
        stored
    } else {
        let first = entries.first();
        let others = entries.drop_first();
        let value = values[0];
        assert(entries[0].wf());
        assert forall|i: int| 0 <= i < others.len() implies (#[trigger] others[i]).wf()
            && parsed_u32(decode_utf8(others[i].word)) == Some(values.drop_first()[i]) by {
            assert(entries[i + 1].wf());
        }
        let tail = delivered(text_of(others)) + rest;
        lemma_delivered_joins(first.bytes(), text_of(others), rest);
        lemma_spaced_read(first, tail);
        sample_stands_for_its_number(value);
        let next = stored + sample_form(value, wide);
        let more = done.push(value);
        assert(holds_samples(next, more, wide)) by {
            if wide {
                assert forall|i: int| 0 <= i < more.len() implies next[2 * i] * 256 + next[2 * i
                    + 1] == #[trigger] more[i] % 65536 by {
                    if i < done.len() {
                        assert(more[i] == done[i]);
                    }
                }
            } else {
                assert forall|i: int| 0 <= i < more.len() implies next[i] == #[trigger] more[i]
                    % 256 by {
                    if i < done.len() {
                        assert(more[i] == done[i]);
                    }
                }
            }
        }
        let all = lemma_samples_read(next, more, others, values.drop_first(), wide, rest);
        assert(more + values.drop_first() =~= done + values);
        all
    }
}

/// The rows of an ASCII image hold the numbers of its words: where the words that come in are
/// numbers, as many as the rows have samples, the rows are read, and the buffer starts with the
/// numbers, two bytes each where samples have two bytes, and one byte each otherwise. The rest
/// of the buffer stays as it was.
///
/// Fewer than 2^64 - 1 bytes may be read.
pub proof fn ascii_rows_hold_their_numbers<R>(
    before: PpmPamDecoder<R>,
    after: PpmPamDecoder<R>,
    wanted: u32,
    buffer: Seq<u8>,
    filled: Seq<u8>,
    result: Result<u32, PpmPamFailure>,
    entries: Seq<Spaced>,
    values: Seq<u32>,
    rows: int,
)
    requires
        before.wf(),
        before.metadata.format == Format::PpmAscii,
        rows_read(before, after, wanted, buffer, filled, result),
        before.current_row < before.metadata.height,
        rows == if wanted < before.metadata.height - before.current_row {
            wanted as int
        } else {
            before.metadata.height - before.current_row
        },
        before.metadata.width * before.metadata.depth <= u32::MAX,
        rows * (before.metadata.width * before.metadata.depth * sample_size(before.metadata@))
            <= usize::MAX,
        rows * (before.metadata.width * before.metadata.depth * sample_size(before.metadata@))
            <= buffer.len(),
        words_are_numbers(entries, values),
        values.len() == rows * (before.metadata.width * before.metadata.depth),
        played(before.reader@, after.reader@) == delivered(text_of(entries)),
        text_of(entries).len() < u64::MAX,
    ensures
        result == Ok::<u32, PpmPamFailure>(rows as u32),
        after.current_row == before.current_row + rows,
        holds_samples(filled, values, before.metadata.maxval >= 256),
        filled.len() == buffer.len(),
        forall|i: int|
            values.len() * sample_size(before.metadata@) <= i < buffer.len()
                ==> #[trigger] filled[i] == buffer[i],
{
    let header = before.metadata@;
    let wide = header.maxval > 255;
    let used = played(before.reader@, after.reader@);
    let nothing: Tape = Seq::empty();
    assert(used + nothing =~= used);
    let none = Seq::<u8>::empty();
    let all = lemma_samples_read(none, Seq::empty(), entries, values, wide, nothing);
    assert(Seq::<u32>::empty() + values =~= values);
    let d = header.width * header.depth;
    let s = sample_size(header);
    assert(rows * (d * s) == (rows * d) * s) by (nonlinear_arith);
    assert(header.rows_left(before.current_row, wanted) == rows);
    assert(filled == splice(buffer, 0, all));
    splice_changes_its_part_alone(buffer, 0, all);
    if wide {
        assert forall|i: int| 0 <= i < values.len() implies filled[2 * i] * 256 + filled[2 * i + 1]
            == #[trigger] values[i] % 65536 by {
            assert(filled[2 * i] == all[2 * i]);
            assert(filled[2 * i + 1] == all[2 * i + 1]);
        }
    } else {
        assert forall|i: int| 0 <= i < values.len() implies filled[i] == #[trigger] values[i]
            % 256 by {
            assert(filled[i] == all[i]);
        }
    }
}

/// The rows of a binary image are stored as they come: where rows are read, the bytes that came
/// in are those of so many rows, the buffer starts with them, and the rest of it stays as it
/// was.
pub proof fn binary_rows_are_stored_as_they_come<R>(
    before: PpmPamDecoder<R>,
    after: PpmPamDecoder<R>,
    wanted: u32,
    buffer: Seq<u8>,
    filled: Seq<u8>,
    rows: u32,
)
    requires
        before.wf(),
        before.metadata.format == Format::PpmBinary || before.metadata.format == Format::Pam,
        rows_read(before, after, wanted, buffer, filled, Ok(rows)),
    ensures
        ({
            let used = played(before.reader@, after.reader@);
            &&& used.len() == rows * (before.metadata.width * before.metadata.depth * sample_size(
                before.metadata@,
            ))
            &&& filled.len() == buffer.len()
            &&& forall|i: int|
                0 <= i < used.len() ==> #[trigger] used[i] == Ok::<u8, nat>(filled[i])
            &&& forall|i: int| used.len() <= i < buffer.len() ==> #[trigger] filled[i] == buffer[i]
            &&& after.current_row == before.current_row + rows
            &&& rows <= wanted && after.current_row <= before.metadata.height
            &&& rows == wanted || after.current_row == before.metadata.height
        }),
{
    let used = played(before.reader@, after.reader@);
    let d = before.metadata.width * before.metadata.depth * sample_size(before.metadata@);
    assert(0 * d == 0) by (nonlinear_arith);
    if before.current_row < before.metadata.height {
        assert(used == delivered(bytes_on(used)));
        splice_changes_its_part_alone(buffer, 0, bytes_on(used));
        assert forall|i: int| 0 <= i < used.len() implies #[trigger] used[i] == Ok::<u8, nat>(
            filled[i],
        ) by {
            assert(delivered(bytes_on(used))[i] == used[i]);
        }
    }
}

/// Where rows cannot be read, nothing is counted: the same row comes next. Of a binary image
/// the buffer stays as it was, and of any image where it is too small, which is reported before
/// anything is read.
pub proof fn failed_rows_are_not_counted<R>(
    before: PpmPamDecoder<R>,
    after: PpmPamDecoder<R>,
    wanted: u32,
    buffer: Seq<u8>,
    filled: Seq<u8>,
    result: Result<u32, PpmPamFailure>,
)
    requires
        before.wf(),
        rows_read(before, after, wanted, buffer, filled, result),
    ensures
        result is Err ==> after.current_row == before.current_row && before.current_row
            < before.metadata.height,
        result is Err && before.metadata.format != Format::PpmAscii ==> filled == buffer,
        before.current_row >= before.metadata.height ==> result == Ok::<u32, PpmPamFailure>(0)
            && filled == buffer && played(before.reader@, after.reader@).len() == 0,
        before.current_row < before.metadata.height && before.metadata.width * before.metadata.depth
            <= u32::MAX && wanted == 1 && buffer.len() < before.metadata.width
            * before.metadata.depth * sample_size(before.metadata@) ==> {
            &&& result matches Err(PpmPamFailure::Message(message)) && message@
                == "Target layout output buffer capacity is too small"@
            &&& played(before.reader@, after.reader@).len() == 0
            &&& filled == buffer
        },
{
    let d = before.metadata.width * before.metadata.depth * sample_size(before.metadata@);
    assert(1 * d == d) by (nonlinear_arith);
}

/// Rows of a binary image fail only where the source does: where the sizes can be handled and
/// the buffer is large enough, the rows are read, or the one read for all of them failed.
pub proof fn binary_rows_fail_where_the_source_does<R>(
    before: PpmPamDecoder<R>,
    after: PpmPamDecoder<R>,
    wanted: u32,
    buffer: Seq<u8>,
    filled: Seq<u8>,
    result: Result<u32, PpmPamFailure>,
    rows: int,
)
    requires
        before.wf(),
        before.metadata.format == Format::PpmBinary || before.metadata.format == Format::Pam,
        rows_read(before, after, wanted, buffer, filled, result),
        before.current_row < before.metadata.height,
        rows == if wanted < before.metadata.height - before.current_row {
            wanted as int
        } else {
            before.metadata.height - before.current_row
        },
        before.metadata.width * before.metadata.depth <= u32::MAX,
        rows * (before.metadata.width * before.metadata.depth * sample_size(before.metadata@))
            <= usize::MAX,
        rows * (before.metadata.width * before.metadata.depth * sample_size(before.metadata@))
            <= buffer.len(),
    ensures
        ({
            let total = rows * (before.metadata.width * before.metadata.depth * sample_size(
                before.metadata@,
            ));
            let used = played(before.reader@, after.reader@);
            ||| result == Ok::<u32, PpmPamFailure>(rows as u32)
            ||| {
                &&& result matches Err(PpmPamFailure::Message(message)) && message@
                    == "Failed reading target binary stream payload"@
                &&& used == seq![Err::<u8, nat>(total as nat)]
                &&& filled == buffer
            }
        }),
{
    assert(before.metadata@.rows_left(before.current_row, wanted) == rows);
}

/// Sizes are reported as too large exactly where the samples of a row do not fit in 32 bits, or
/// the bytes of the rows not in a machine-sized number; and an image of unknown format is
/// reported where its sizes are in order.
pub proof fn sizes_are_too_large_or_not<R>(
    before: PpmPamDecoder<R>,
    after: PpmPamDecoder<R>,
    wanted: u32,
    buffer: Seq<u8>,
    filled: Seq<u8>,
    result: Result<u32, PpmPamFailure>,
    rows: int,
)
    requires
        before.wf(),
        rows_read(before, after, wanted, buffer, filled, result),
        before.current_row < before.metadata.height,
        rows == if wanted < before.metadata.height - before.current_row {
            wanted as int
        } else {
            before.metadata.height - before.current_row
        },
        played(before.reader@, after.reader@).len() < u64::MAX,
    ensures
        ({
            let total = rows * (before.metadata.width * before.metadata.depth * sample_size(
                before.metadata@,
            ));
            let large = before.metadata.width * before.metadata.depth > u32::MAX || total
                > usize::MAX;
            &&& (result matches Err(failure) && failure is Overflow) <==> large
            &&& !large && buffer.len() < total ==> (result matches Err(
                PpmPamFailure::Message(message),
            ) && message@ == "Target layout output buffer capacity is too small"@)
            &&& !large && buffer.len() >= total && before.metadata.format == Format::Unknown ==> (
            result matches Err(PpmPamFailure::Message(message)) && message@
                == "Processing an unrecognized file stream layout"@)
        }),
{
    assert(before.metadata@.rows_left(before.current_row, wanted) == rows);
}

/// A word that is no number ends the rows of an ASCII image: it is reported, the numbers before
/// it are stored, and the rest of the buffer stays as it was.
///
/// Fewer than 2^64 - 1 bytes may be read.
pub proof fn ascii_rows_end_at_a_wrong_word<R>(
    before: PpmPamDecoder<R>,
    after: PpmPamDecoder<R>,
    wanted: u32,
    buffer: Seq<u8>,
    filled: Seq<u8>,
    result: Result<u32, PpmPamFailure>,
    entries: Seq<Spaced>,
    values: Seq<u32>,
    wrong: Spaced,
    rows: int,
)
    requires
        before.wf(),
        before.metadata.format == Format::PpmAscii,
        rows_read(before, after, wanted, buffer, filled, result),
        before.current_row < before.metadata.height,
        rows == if wanted < before.metadata.height - before.current_row {
            wanted as int
        } else {
            before.metadata.height - before.current_row
        },
        before.metadata.width * before.metadata.depth <= u32::MAX,
        rows * (before.metadata.width * before.metadata.depth * sample_size(before.metadata@))
            <= usize::MAX,
        rows * (before.metadata.width * before.metadata.depth * sample_size(before.metadata@))
            <= buffer.len(),
        words_are_numbers(entries, values),
        wrong.wf(),
        parsed_u32(decode_utf8(wrong.word)) is None,
        values.len() < rows * (before.metadata.width * before.metadata.depth),
        played(before.reader@, after.reader@) == delivered(text_of(entries) + wrong.bytes()),
        (text_of(entries) + wrong.bytes()).len() < u64::MAX,
    ensures
        result matches Err(PpmPamFailure::Message(message)) && message@
            == "Invalid integer token inside ASCII pixel matrix"@,
        after.current_row == before.current_row,
        holds_samples(filled, values, before.metadata.maxval >= 256),
        filled.len() == buffer.len(),
        forall|i: int|
            values.len() * sample_size(before.metadata@) <= i < buffer.len()
                ==> #[trigger] filled[i] == buffer[i],
{
    let header = before.metadata@;
    let wide = header.maxval > 255;
    let count = (rows * (header.width * header.depth)) as nat;
    let nothing: Tape = Seq::empty();
    let used = played(before.reader@, after.reader@);
    let none = Seq::<u8>::empty();
    lemma_delivered_joins(text_of(entries), wrong.bytes(), nothing);
    assert(used + nothing =~= used);
    let all = lemma_samples_up_to(
        none,
        Seq::empty(),
        entries,
        values,
        wrong,
        count,
        wide,
        nothing,
    );
    assert(Seq::<u32>::empty() + values =~= values);
    let d = header.width * header.depth;
    let s = sample_size(header);
    assert(rows * (d * s) == (rows * d) * s) by (nonlinear_arith);
    assert(header.rows_left(before.current_row, wanted) == rows);
    assert(filled == splice(buffer, 0, all));
    splice_changes_its_part_alone(buffer, 0, all);
    if wide {
        assert forall|i: int| 0 <= i < values.len() implies filled[2 * i] * 256 + filled[2 * i + 1]
            == #[trigger] values[i] % 65536 by {
            assert(filled[2 * i] == all[2 * i]);
            assert(filled[2 * i + 1] == all[2 * i + 1]);
        }
    } else {
        assert forall|i: int| 0 <= i < values.len() implies filled[i] == #[trigger] values[i]
            % 256 by {
            assert(filled[i] == all[i]);
        }
    }
}

proof fn lemma_samples_up_to(
    stored: Seq<u8>,
    done: Seq<u32>,
    entries: Seq<Spaced>,
    values: Seq<u32>,
    wrong: Spaced,
    count: nat,
    wide: bool,
    rest: Tape,
) -> (all: Seq<u8>)
    requires
        words_are_numbers(entries, values),
        wrong.wf(),
        parsed_u32(decode_utf8(wrong.word)) is None,
        values.len() < count,
        holds_samples(stored, done, wide),
        stored.len() == done.len() * (if wide {
            2int
        } else {
            1
        }),
    ensures
        read_samples(
            stored,
            count,
            wide,
            delivered(text_of(entries)) + (delivered(wrong.bytes()) + rest),
        ) == (Samples::Failed {
            stored: all,
            message: "Invalid integer token inside ASCII pixel matrix"@,
            rest,
        }),
        holds_samples(all, done + values, wide),
        all.len() == (done.len() + values.len()) * (if wide {
            2int
        } else {
            1
        }),
    decreases entries.len(),
{
    let tail = delivered(wrong.bytes()) + rest;
    if entries.len() == 0 {
        lemma_delivered(text_of(entries), tail);
        lemma_spaced_read(wrong, rest);
        assert(done + values =~= done);
        stored
    } else {
        let first = entries.first();
        let others = entries.drop_first();
        let value = values[0];
        assert(entries[0].wf());
        assert forall|i: int| 0 <= i < others.len() implies (#[trigger] others[i]).wf()
            && parsed_u32(decode_utf8(others[i].word)) == Some(values.drop_first()[i]) by {
            assert(entries[i + 1].wf());
        }
        lemma_delivered_joins(first.bytes(), text_of(others), tail);
        lemma_spaced_read(first, delivered(text_of(others)) + tail);
        sample_stands_for_its_number(value);
        let next = stored + sample_form(value, wide);
        let more = done.push(value);
        assert(holds_samples(next, more, wide)) by {
            if wide {
                assert forall|i: int| 0 <= i < more.len() implies next[2 * i] * 256 + next[2 * i
                    + 1] == #[trigger] more[i] % 65536 by {
                    if i < done.len() {
                        assert(more[i] == done[i]);
                    }
                }
            } else {
                assert forall|i: int| 0 <= i < more.len() implies next[i] == #[trigger] more[i]
                    % 256 by {
                    if i < done.len() {
                        assert(more[i] == done[i]);
                    }
                }
            }
        }
        let all = lemma_samples_up_to(
            next,
            more,
            others,
            values.drop_first(),
            wrong,
            (count - 1) as nat,
            wide,
            rest,
        );
        assert(more + values.drop_first() =~= done + values);
        all
    }
}

/// A header is given where it can be read and its rows can be handled, with exactly what it
/// says, and the first row comes next; where it cannot be read, the reason is given; and where
/// a row has more bytes than a machine-sized number counts, that is reported.
///
/// Fewer than 2^64 - 1 bytes may be read.
pub proof fn header_is_given_as_it_was_read<R>(
    before: History,
    result: Result<PpmPamDecoder<R>, HeaderError<R>>,
)
    requires
        header_result(before, result),
        played(before, reader_after(result)).len() < u64::MAX,
    ensures
        ({
            let read = read_header(played(before, reader_after(result)));
            &&& result matches Ok(decoder) ==> {
                &&& read matches Outcome::Done { value, rest } && rest.len() == 0 && value
                    == decoder.metadata@
                &&& decoder.current_row == 0
                &&& decoder.bytes_per_row == decoder.metadata.width * decoder.metadata.depth
                    * sample_size(decoder.metadata@)
            }
            &&& read matches Outcome::Done { value, rest } ==> {
                &&& result is Ok <==> value.width * value.depth * sample_size(value) <= usize::MAX
                &&& result matches Err(error) ==> error.failure is Overflow
            }
            &&& read matches Outcome::Failed { message, rest } ==> (result matches Err(error)
                && error.failure matches PpmPamFailure::Message(text) && text@ == message)
        }),
{
}

/// Each sample of an ASCII image is one token: a token that cannot be read, or that is no number,
/// ends the reading with what was stored before it, and a number is stored after it.
pub proof fn samples_are_read_token_by_token(
    stored: Seq<u8>,
    count: nat,
    wide: bool,
    tape: Tape,
)
    requires
        count > 0,
    ensures
        ({
            let read = read_samples(stored, count, wide, tape);
            &&& read_token(tape) matches Outcome::Failed { message, rest } ==> read == (
            Samples::Failed { stored, message, rest })
            &&& read_token(tape) matches Outcome::Done { value, rest } ==> {
                &&& parsed_u32(value) is None ==> read == (Samples::Failed {
                    stored,
                    message: "Invalid integer token inside ASCII pixel matrix"@,
                    rest,
                })
                &&& parsed_u32(value) matches Some(number) ==> exists|form: Seq<u8>|
                    {
                        &&& wide ==> form.len() == 2 && form[0] * 256 + form[1] == number % 65536
                        &&& !wide ==> form.len() == 1 && form[0] == number % 256
                        &&& read == #[trigger] read_samples(
                            stored + form,
                            (count - 1) as nat,
                            wide,
                            rest,
                        )
                    }
            }
        }),
        read_samples(stored, 0, wide, tape) == (Samples::Done { stored, rest: tape }),
{
    if let Outcome::Done { value, rest } = read_token(tape) {
        if let Some(number) = parsed_u32(value) {
            sample_stands_for_its_number(number);
            let form = sample_form(number, wide);
            assert(read_samples(stored, count, wide, tape) == read_samples(
                stored + form,
                (count - 1) as nat,
                wide,
                rest,
            ));
        }
    }
}

/// The rows of an ASCII image are read as their samples are: they are given where all samples
/// were, and else the reason is; either way the buffer starts with the samples that were
/// stored, and the rest of it stays as it was.
///
/// Fewer than 2^64 - 1 bytes may be read.
pub proof fn ascii_rows_follow_their_samples<R>(
    before: PpmPamDecoder<R>,
    after: PpmPamDecoder<R>,
    wanted: u32,
    buffer: Seq<u8>,
    filled: Seq<u8>,
    result: Result<u32, PpmPamFailure>,
    rows: int,
)
    requires
        before.wf(),
        before.metadata.format == Format::PpmAscii,
        rows_read(before, after, wanted, buffer, filled, result),
        before.current_row < before.metadata.height,
        rows == if wanted < before.metadata.height - before.current_row {
            wanted as int
        } else {
            before.metadata.height - before.current_row
        },
        before.metadata.width * before.metadata.depth <= u32::MAX,
        rows * (before.metadata.width * before.metadata.depth * sample_size(before.metadata@))
            <= usize::MAX,
        rows * (before.metadata.width * before.metadata.depth * sample_size(before.metadata@))
            <= buffer.len(),
        played(before.reader@, after.reader@).len() < u64::MAX,
    ensures
        ({
            let read = read_samples(
                Seq::empty(),
                (rows * (before.metadata.width * before.metadata.depth)) as nat,
                before.metadata.maxval >= 256,
                played(before.reader@, after.reader@),
            );
            &&& read matches Samples::Done { stored, rest } ==> {
                &&& result == Ok::<u32, PpmPamFailure>(rows as u32)
                &&& rest.len() == 0
                &&& filled == splice(buffer, 0, stored)
            }
            &&& read matches Samples::Failed { stored, message, rest } ==> {
                &&& result matches Err(PpmPamFailure::Message(text)) && text@ == message
                &&& rest.len() == 0
                &&& filled == splice(buffer, 0, stored)
            }
            &&& !(read is More)
        }),
{
    assert(before.metadata@.rows_left(before.current_row, wanted) == rows);
}

} // verus!
