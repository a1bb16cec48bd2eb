//! Reading PPM and PAM images.

use crate::bytes::splice;
use crate::channel::{
    lemma_blank, lemma_reached, lemma_reached_itself, lemma_since, lemma_since_itself,
    lemma_since_joins, lemma_sized_reached, lemma_source_writes_nothing, reached, read_call,
    source_call, ByteSource, Channel, History,
};
use crate::text::{
    chars_are, chars_of, line_text, parse_u32, parsed_u32, read_line_text, utf8_text,
    word_ranges, words,
};
use vstd::prelude::*;
use vstd::string::StrSliceExecFns;
use vstd::utf8::{decode_utf8, encode_utf8, valid_utf8};

verus! {

/// The kinds of image files.
#[derive(Debug, Clone, Copy, PartialEq, Eq, Structural)]
pub enum Format {
    Unknown,
    /// "P3"
    PpmAscii,
    /// "P6"
    PpmBinary,
    /// "P7"
    Pam,
}

impl Format {
    /// The number of a format: the digit of its signature, or 0.
    pub fn code(self) -> (code: u32)
        ensures
            code == match self {
                Format::Unknown => 0u32,
                Format::PpmAscii => 3,
                Format::PpmBinary => 6,
                Format::Pam => 7,
            },
    {
        match self {
            Format::Unknown => 0,
            Format::PpmAscii => 3,
            Format::PpmBinary => 6,
            Format::Pam => 7,
        }
    }
}

/// How many bytes the name of a tuple type may take, with its closing zero.
pub const TUPLE_TYPE_LEN: usize = 64;

/// What the header of an image says.
#[derive(Debug, Clone, Copy)]
pub struct PpmPamMetadata {
    pub format: Format,
    pub width: u32,
    pub height: u32,
    pub maxval: u32,
    pub depth: u32,
    /// The name of the tuple type, filled up with zeros.
    pub tuple_type: [u8; 64],
}

/// The mathematical form of `PpmPamMetadata`.
pub struct Header {
    pub format: Format,
    pub width: u32,
    pub height: u32,
    pub maxval: u32,
    pub depth: u32,
    pub tuple_type: Seq<u8>,
}

impl View for PpmPamMetadata {
    type V = Header;

    open spec fn view(&self) -> Header {
        Header {
            format: self.format,
            width: self.width,
            height: self.height,
            maxval: self.maxval,
            depth: self.depth,
            tuple_type: self.tuple_type@,
        }
    }
}

impl Header {
    /// The bytes of a sample.
    pub open spec fn sample_bytes(self) -> int {
        if self.maxval > 255 {
            2
        } else {
            1
        }
    }

    /// The bytes of a row of pixels.
    pub open spec fn row_bytes(self) -> int {
        self.width * self.depth * self.sample_bytes()
    }
}

/// What a source gives: bytes, and the size of each read that fails.
pub type Tape = Seq<Result<u8, nat>>;

/// What reading from a tape comes to.
pub enum Outcome<T> {
    Done { value: T, rest: Tape },
    Failed { message: Seq<char>, rest: Tape },
    /// The tape ends before a decision, or holds a read of another size than is made.
    More,
}

/// What `after` has read more than `before`.
pub open spec fn played(before: History, after: History) -> Tape {
    after.since(before).tape()
}

/// Whether nothing but reading happened.
pub open spec fn only_read(before: History, after: History) -> bool {
    &&& after.follows(before)
    &&& after.since(before).writes().len() == 0
    &&& after.since(before).refused().len() == 0
}

/// Calls that read, and then more of them.
proof fn lemma_read_on<R: ByteSource>(a: Channel<R>, b: Channel<R>, c: Channel<R>)
    requires
        reached(source_call::<R>(), a, b),
        reached(source_call::<R>(), b, c),
    ensures
        reached(source_call::<R>(), a, c),
        only_read(a@, c@),
        played(a@, c@) == played(a@, b@) + played(b@, c@),
{
    lemma_reached(source_call::<R>(), a, b, c);
    lemma_source_writes_nothing(a, c);
    lemma_since_joins(a@, b@, c@);
}

/// Calls that read a byte each, and then more of them.
proof fn lemma_bytes_on<R: ByteSource>(a: Channel<R>, b: Channel<R>, c: Channel<R>)
    requires
        reached(read_call::<R>(1), a, b),
        reached(read_call::<R>(1), b, c),
    ensures
        reached(read_call::<R>(1), a, c),
        only_read(a@, c@),
        played(a@, c@) == played(a@, b@) + played(b@, c@),
{
    lemma_reached(read_call::<R>(1), a, b, c);
    lemma_sized_reached(1, a, b);
    lemma_sized_reached(1, b, c);
    lemma_read_on(a, b, c);
}

/// Before any call.
proof fn lemma_not_read_yet<R: ByteSource>(a: Channel<R>)
    ensures
        reached(source_call::<R>(), a, a),
        reached(read_call::<R>(1), a, a),
        only_read(a@, a@),
        played(a@, a@) == Seq::<Result<u8, nat>>::empty(),
{
    lemma_reached_itself(source_call::<R>(), a);
    lemma_reached_itself(read_call::<R>(1), a);
    lemma_since_itself(a@);
    lemma_blank();
}

/// Reads one byte after what was read since some point.
fn next_byte<R: ByteSource>(io: &mut Channel<R>, Ghost(c0): Ghost<Channel<R>>) -> (byte: Option<u8>)
    requires
        reached(read_call::<R>(1), c0, *old(io)),
    ensures
        reached(read_call::<R>(1), c0, *final(io)),
        only_read(c0@, final(io)@),
        played(c0@, final(io)@) == played(c0@, old(io)@).push(
            match byte {
                Some(byte) => Ok(byte),
                None => Err(1nat),
            },
        ),
{
    let ghost c1 = *io;
    let byte: Option<u8> = io.receive_byte();
    proof {
        lemma_bytes_on(c0, c1, *io);
        assert(played(c0@, io@) =~= played(c0@, c1@).push(
            match byte {
                Some(byte) => Ok(byte),
                None => Err(1nat),
            },
        ));
    }
    byte
}

/// The bytes that separate tokens.
pub open spec fn separates(c: u8) -> bool {
    c == 32 || c == 9 || c == 10 || c == 12 || c == 13
}

/// Reads the rest of a token of which `token` was read, byte by byte. A `#` starts a comment
/// up to the end of the line; a comment inside a token does not end it.
pub open spec fn scan_token(token: Seq<u8>, in_comment: bool, tape: Tape) -> Outcome<Seq<u8>>
    decreases tape.len(),
{
    if tape.len() == 0 {
        Outcome::More
    } else {
        let rest = tape.skip(1);
        match tape[0] {
            Err(size) => if size != 1 {
                Outcome::More
            } else if token.len() > 0 {
                Outcome::Done { value: token, rest }
            } else {
                Outcome::Failed {
                    message: "Unexpected End-of-File reached while decoding header"@,
                    rest,
                }
            },
            Ok(c) => if in_comment {
                scan_token(token, c != 10 && c != 13, rest)
            } else if c == 35 {
                scan_token(token, true, rest)
            } else if separates(c) {
                if token.len() > 0 {
                    Outcome::Done { value: token, rest }
                } else {
                    scan_token(token, false, rest)
                }
            } else {
                scan_token(token.push(c), false, rest)
            },
        }
    }
}

/// Reads a token.
pub open spec fn read_token(tape: Tape) -> Outcome<Seq<char>> {
    match scan_token(Seq::empty(), false, tape) {
        Outcome::Done { value, rest } => if valid_utf8(value) {
            Outcome::Done { value: decode_utf8(value), rest }
        } else {
            Outcome::Failed { message: "Header encoding is not valid UTF-8"@, rest }
        },
        Outcome::Failed { message, rest } => Outcome::Failed { message, rest },
        Outcome::More => Outcome::More,
    }
}

/// What reading a token through a channel gives: the characters of the token, or a message.
pub open spec fn token_read(
    before: History,
    after: History,
    result: Result<Seq<char>, Seq<char>>,
) -> bool {
    let used = played(before, after);
    &&& only_read(before, after)
    &&& used.len() < u64::MAX ==> match result {
        Ok(text) => forall|more: Tape| #[trigger]
            read_token(used + more) == (Outcome::Done { value: text, rest: more }),
        Err(message) => forall|more: Tape| #[trigger]
            read_token(used + more) == (Outcome::<Seq<char>>::Failed { message, rest: more }),
    }
    &&& used.len() >= u64::MAX ==> result is Err
}

/// The characters of a text, or of a message.
pub open spec fn in_chars(result: Result<String, String>) -> Result<Seq<char>, Seq<char>> {
    match result {
        Ok(text) => Ok(text@),
        Err(message) => Err(message@),
    }
}

/// Reads the next token. Should more bytes come in than a 64-bit number can count, it
/// gives up.
pub fn next_ppm_token<R: ByteSource>(io: &mut Channel<R>) -> (token: Result<String, String>)
    ensures
        reached(read_call::<R>(1), *old(io), *final(io)),
        token_read(old(io)@, final(io)@, in_chars(token)),
{
    let ghost c0 = *io;
    let ghost h0 = io@;
    let mut token: Vec<u8> = Vec::new();
    let mut in_comment: bool = false;
    let mut budget: u64 = u64::MAX;
    let ghost none = Seq::<u8>::empty();
    proof {
        lemma_not_read_yet(c0);
        assert forall|more: Tape| #[trigger]
            scan_token(none, false, played(h0, io@) + more) == scan_token(
                token@,
                in_comment,
                more,
            ) by {
            assert(played(h0, io@) + more =~= more);
            assert(token@ =~= none);
        }
    }
    loop
        invariant_except_break
            played(h0, io@).len() == u64::MAX - budget,
            budget > 0,
            forall|more: Tape| #[trigger]
                scan_token(none, false, played(h0, io@) + more) == scan_token(
                    token@,
                    in_comment,
                    more,
                ),
        invariant
            h0 == old(io)@,
            c0 == *old(io),
            reached(read_call::<R>(1), c0, *io),
            only_read(h0, io@),
            none == Seq::<u8>::empty(),
        ensures
            c0 == *old(io),
            reached(read_call::<R>(1), c0, *io),
            only_read(h0, io@),
            played(h0, io@).len() < u64::MAX,
            forall|more: Tape| #[trigger]
                scan_token(none, false, played(h0, io@) + more) == (Outcome::Done {
                    value: token@,
                    rest: more,
                }),
        decreases budget,
    {
        let ghost h1 = io@;
        let ghost used = played(h0, h1);
        let ghost (token0, comment0) = (token@, in_comment);
        let step: Option<u8> = next_byte(io, Ghost(c0));
        let ghost entry: Result<u8, nat> = match step {
            Some(c) => Ok(c),
            None => Err(1),
        };
        budget -= 1;
        proof {
            assert(played(h0, io@) =~= used.push(entry));
            assert forall|more: Tape| #[trigger]
                scan_token(none, false, played(h0, io@) + more) == scan_token(
                    token0,
                    comment0,
                    seq![entry] + more,
                ) && (seq![entry] + more).skip(1) == more && (seq![entry] + more)[0] == entry by {
                assert(played(h0, io@) + more =~= used + (seq![entry] + more));
                assert((seq![entry] + more).skip(1) =~= more);
            }
        }
        if budget == 0 {
            return Err("Unexpected End-of-File reached while decoding header".to_owned());
        }
        let c: u8 = match step {
            Some(c) => c,
            None => {
                if token.len() > 0 {
                    break;
                }
                return Err("Unexpected End-of-File reached while decoding header".to_owned());
            },
        };
        if in_comment {
            if c == 10 || c == 13 {
                in_comment = false;
            }
        } else if c == 35 {
            in_comment = true;
        } else if c == 32 || c == 9 || c == 10 || c == 12 || c == 13 {
            if token.len() > 0 {
                break;
            }
        } else {
            token.push(c);
        }
    }
    match utf8_text(token) {
        Ok(text) => Ok(text),
        Err(_) => Err("Header encoding is not valid UTF-8".to_owned()),
    }
}

/// Reads the rest of a line of which `line` was read, byte by byte. Carriage returns are dropped.
pub open spec fn scan_line(line: Seq<u8>, tape: Tape) -> Outcome<Seq<u8>>
    decreases tape.len(),
{
    if tape.len() == 0 {
        Outcome::More
    } else {
        let rest = tape.skip(1);
        match tape[0] {
            Err(size) => if size != 1 {
                Outcome::More
            } else {
                Outcome::Failed { message: "Abrupt EOF inside PAM header declarations"@, rest }
            },
            Ok(c) => if c == 10 {
                Outcome::Done { value: line, rest }
            } else if c == 13 {
                scan_line(line, rest)
            } else {
                scan_line(line.push(c), rest)
            },
        }
    }
}

/// What one line of a PAM header does.
pub enum Field {
    /// The header so far.
    Keep(Header),
    /// The header is complete.
    End,
    /// The line is wrong.
    Bad(Seq<char>),
}

/// The number in the second word of a line, or what is wrong with it.
pub open spec fn number_field(
    parts: Seq<Seq<char>>,
    malformed: Seq<char>,
    invalid: Seq<char>,
) -> Result<u32, Seq<char>> {
    if parts.len() < 2 {
        Err(malformed)
    } else {
        match parsed_u32(parts[1]) {
            Some(number) => Ok(number),
            None => Err(invalid),
        }
    }
}

/// What a line with the words `parts` does to a PAM header. Lines that start with none of
/// the known words are skipped.
pub open spec fn pam_field(header: Header, parts: Seq<Seq<char>>) -> Field {
    if parts.len() == 0 {
        Field::Keep(header)
    } else if parts[0] == "WIDTH"@ {
        match number_field(parts, "Malformed WIDTH configuration"@, "Invalid PAM width values"@) {
            Ok(width) => Field::Keep(Header { width, ..header }),
            Err(message) => Field::Bad(message),
        }
    } else if parts[0] == "HEIGHT"@ {
        match number_field(
            parts,
            "Malformed HEIGHT configuration"@,
            "Invalid PAM height values"@,
        ) {
            Ok(height) => Field::Keep(Header { height, ..header }),
            Err(message) => Field::Bad(message),
        }
    } else if parts[0] == "DEPTH"@ {
        match number_field(parts, "Malformed DEPTH configuration"@, "Invalid PAM depth layout"@) {
            Ok(depth) => Field::Keep(Header { depth, ..header }),
            Err(message) => Field::Bad(message),
        }
    } else if parts[0] == "MAXVAL"@ {
        match number_field(parts, "Malformed MAXVAL configuration"@, "Invalid PAM maxval range"@) {
            Ok(maxval) => Field::Keep(Header { maxval, ..header }),
            Err(message) => Field::Bad(message),
        }
    } else if parts[0] == "TUPLTYPE"@ {
        if parts.len() < 2 {
            Field::Bad("Malformed TUPLTYPE attributes"@)
        } else {
            Field::Keep(
                Header { tuple_type: named(header.tuple_type, encode_utf8(parts[1])), ..header },
            )
        }
    } else if parts[0] == "ENDHDR"@ {
        Field::End
    } else {
        Field::Keep(header)
    }
}

/// A tuple type after `name` was written over it: all but the last byte can be used, and
/// what a short name does not cover stays.
pub open spec fn named(tuple_type: Seq<u8>, name: Seq<u8>) -> Seq<u8> {
    splice(
        tuple_type,
        0,
        if name.len() < TUPLE_TYPE_LEN {
            name
        } else {
            name.take(TUPLE_TYPE_LEN - 1)
        },
    )
}

/// Reads the lines of a PAM header.
pub open spec fn pam_lines(header: Header, tape: Tape) -> Outcome<Header>
    decreases tape.len(),
{
    match scan_line(Seq::empty(), tape) {
        Outcome::Done { value, rest } => if rest.len() >= tape.len() {
            Outcome::More
        } else {
            match pam_field(header, words(line_text(value))) {
                Field::Keep(next) => pam_lines(next, rest),
                Field::End => Outcome::Done { value: header, rest },
                Field::Bad(message) => Outcome::Failed { message, rest },
            }
        },
        Outcome::Failed { message, rest } => Outcome::Failed { message, rest },
        Outcome::More => Outcome::More,
    }
}

/// A header of a given format in which nothing is set yet.
pub open spec fn fresh_header(format: Format) -> Header {
    Header {
        format,
        width: 0,
        height: 0,
        maxval: 0,
        depth: 0,
        tuple_type: Seq::new(TUPLE_TYPE_LEN as nat, |i: int| 0u8),
    }
}

/// The numbers of a PPM header from their tokens.
pub open spec fn ppm_numbers(
    format: Format,
    width: Seq<char>,
    height: Seq<char>,
    maxval: Seq<char>,
    rest: Tape,
) -> Outcome<Header> {
    match (parsed_u32(width), parsed_u32(height), parsed_u32(maxval)) {
        (None, _, _) => Outcome::Failed { message: "Invalid width integer"@, rest },
        (_, None, _) => Outcome::Failed { message: "Invalid height integer"@, rest },
        (_, _, None) => Outcome::Failed { message: "Invalid maxval integer"@, rest },
        (Some(width), Some(height), Some(maxval)) => Outcome::Done {
            value: Header { width, height, maxval, depth: 3, ..fresh_header(format) },
            rest,
        },
    }
}

/// Reads the three tokens of a PPM header. Its pixels have three samples.
pub open spec fn ppm_tokens(format: Format, tape: Tape) -> Outcome<Header> {
    match read_token(tape) {
        Outcome::Failed { message, rest } => Outcome::Failed { message, rest },
        Outcome::More => Outcome::More,
        Outcome::Done { value: width, rest } => match read_token(rest) {
            Outcome::Failed { message, rest } => Outcome::Failed { message, rest },
            Outcome::More => Outcome::More,
            Outcome::Done { value: height, rest } => match read_token(rest) {
                Outcome::Failed { message, rest } => Outcome::Failed { message, rest },
                Outcome::More => Outcome::More,
                Outcome::Done { value: maxval, rest } => ppm_numbers(
                    format,
                    width,
                    height,
                    maxval,
                    rest,
                ),
            },
        },
    }
}

/// Reads a header: the two bytes of the signature at once, and what they announce.
pub open spec fn read_header(tape: Tape) -> Outcome<Header> {
    if tape.len() == 0 {
        Outcome::More
    } else if tape[0] == Err::<u8, nat>(2) {
        Outcome::Failed { message: "Failed to verify image magic bytes"@, rest: tape.skip(1) }
    } else if tape.len() < 2 || tape[0] is Err || tape[1] is Err {
        Outcome::More
    } else {
        let rest = tape.skip(2);
        let magic = (tape[0]->Ok_0, tape[1]->Ok_0);
        if magic == (80u8, 51u8) {
            ppm_tokens(Format::PpmAscii, rest)
        } else if magic == (80u8, 54u8) {
            ppm_tokens(Format::PpmBinary, rest)
        } else if magic == (80u8, 55u8) {
            pam_lines(fresh_header(Format::Pam), rest)
        } else {
            Outcome::Failed {
                message: "Invalid format identifier: signature must be P3, P6, or P7"@,
                rest,
            }
        }
    }
}

/// Metadata of a given format in which nothing is set yet.
fn fresh_metadata(format: Format) -> (metadata: PpmPamMetadata)
    ensures
        metadata@ == fresh_header(format),
{
    let metadata = PpmPamMetadata {
        format,
        width: 0,
        height: 0,
        maxval: 0,
        depth: 0,
        tuple_type: [0;64],
    };
    assert(metadata@.tuple_type =~= fresh_header(format).tuple_type);
    metadata
}

/// Writes a name over a tuple type.
fn set_tuple_type(metadata: &mut PpmPamMetadata, name: &[u8])
    ensures
        final(metadata)@ == (Header {
            tuple_type: named(old(metadata)@.tuple_type, name@),
            ..old(metadata)@
        }),
{
    let len: usize = if name.len() < TUPLE_TYPE_LEN {
        name.len()
    } else {
        TUPLE_TYPE_LEN - 1
    };
    let mut i: usize = 0;
    let ghost before = metadata@;
    assert(metadata@.tuple_type =~= splice(before.tuple_type, 0, name@.take(0)));
    while i < len
        invariant
            i <= len < TUPLE_TYPE_LEN,
            len <= name@.len(),
            metadata@ == (Header {
                tuple_type: splice(before.tuple_type, 0, name@.take(i as int)),
                ..before
            }),
        decreases len - i,
    {
        metadata.tuple_type[i] = name[i];
        i += 1;
        assert(metadata@.tuple_type =~= splice(before.tuple_type, 0, name@.take(i as int)));
    }
    assert(name@.take(name@.len() as int) =~= name@);
}

/// What became of reading a line.
enum LineEnd {
    Line(Vec<u8>),
    Cut,
    /// More bytes came in than were allowed.
    Spent,
}

/// Reads a line of at most `budget` bytes, and takes what it reads off the budget.
fn read_line<R: ByteSource>(io: &mut Channel<R>, budget: &mut u64) -> (end: LineEnd)
    ensures
        reached(read_call::<R>(1), *old(io), *final(io)),
        only_read(old(io)@, final(io)@),
        played(old(io)@, final(io)@).len() == *old(budget) - *final(budget),
        ({
            let used = played(old(io)@, final(io)@);
            match end {
                LineEnd::Line(line) => used.len() > 0 && forall|more: Tape| #[trigger]
                    scan_line(Seq::empty(), used + more) == (Outcome::Done {
                        value: line@,
                        rest: more,
                    }),
                LineEnd::Cut => forall|more: Tape| #[trigger]
                    scan_line(Seq::empty(), used + more) == (Outcome::<Seq<u8>>::Failed {
                        message: "Abrupt EOF inside PAM header declarations"@,
                        rest: more,
                    }),
                LineEnd::Spent => *final(budget) == 0,
            }
        }),
{
    let ghost c0 = *io;
    let ghost h0 = io@;
    let ghost none = Seq::<u8>::empty();
    let mut line: Vec<u8> = Vec::new();
    proof {
        lemma_not_read_yet(c0);
        assert forall|more: Tape| #[trigger]
            scan_line(none, played(h0, io@) + more) == scan_line(line@, more) by {
            assert(played(h0, io@) + more =~= more);
            assert(line@ =~= none);
        }
    }
    while *budget > 0
        invariant
            h0 == old(io)@,
            c0 == *old(io),
            reached(read_call::<R>(1), c0, *io),
            only_read(h0, io@),
            none == Seq::<u8>::empty(),
            played(h0, io@).len() == *old(budget) - *budget,
            forall|more: Tape| #[trigger]
                scan_line(none, played(h0, io@) + more) == scan_line(line@, more),
        decreases *budget,
    {
        let ghost used = played(h0, io@);
        let ghost line0 = line@;
        let step: Option<u8> = next_byte(io, Ghost(c0));
        let ghost entry: Result<u8, nat> = match step {
            Some(c) => Ok(c),
            None => Err(1),
        };
        *budget = *budget - 1;
        proof {
            assert(played(h0, io@) =~= used.push(entry));
            assert forall|more: Tape| #[trigger]
                scan_line(none, played(h0, io@) + more) == scan_line(line0, seq![entry] + more) && (
                seq![entry] + more).skip(1) == more && (seq![entry] + more)[0] == entry by {
                assert(played(h0, io@) + more =~= used + (seq![entry] + more));
                assert((seq![entry] + more).skip(1) =~= more);
            }
        }
        match step {
            None => {
                return LineEnd::Cut;
            },
            Some(c) => {
                if c == 10 {
                    return LineEnd::Line(line);
                }
                if c != 13 {
                    line.push(c);
                }
            },
        }
    }
    LineEnd::Spent
}

/// The number in the second word of a line, or what is wrong with it.
fn number_in(
    chars: &Vec<char>,
    ranges: &Vec<(usize, usize)>,
    malformed: &'static str,
    invalid: &'static str,
) -> (number: Result<u32, &'static str>)
    requires
        ranges@.len() == words(chars@).len(),
        forall|i: int|
            0 <= i < ranges@.len() ==> {
                let (start, end) = #[trigger] ranges@[i];
                start <= end <= chars@.len() && chars@.subrange(start as int, end as int) == words(
                    chars@,
                )[i]
            },
    ensures
        match (number, number_field(words(chars@), malformed@, invalid@)) {
            (Ok(number), Ok(wanted)) => number == wanted,
            (Err(message), Err(wanted)) => message@ == wanted,
            _ => false,
        },
{
    if ranges.len() < 2 {
        return Err(malformed);
    }
    let (start, end) = ranges[1];
    match parse_u32(vstd::slice::slice_subrange(chars.as_slice(), start, end)) {
        Some(number) => Ok(number),
        None => Err(invalid),
    }
}

/// Applies one line to the metadata of a PAM image. Tells whether the header is
/// complete, or what is wrong with the line.
pub fn apply_line(metadata: &mut PpmPamMetadata, line: &str) -> (end: Result<bool, &'static str>)
    ensures
        match (end, pam_field(old(metadata)@, words(line@))) {
            (Ok(false), Field::Keep(header)) => final(metadata)@ == header,
            (Ok(true), Field::End) => final(metadata)@ == old(metadata)@,
            (Err(message), Field::Bad(wanted)) => message@ == wanted,
            _ => false,
        },
{
    let chars: Vec<char> = chars_of(line);
    let ranges: Vec<(usize, usize)> = word_ranges(&chars);
    if ranges.len() == 0 {
        return Ok(false);
    }
    let (start, end) = ranges[0];
    let key: &[char] = vstd::slice::slice_subrange(chars.as_slice(), start, end);
    assert(key@ == words(line@)[0]);
    if chars_are(key, "WIDTH") {
        match number_in(
            &chars,
            &ranges,
            "Malformed WIDTH configuration",
            "Invalid PAM width values",
        ) {
            Ok(width) => {
                metadata.width = width;
            },
            Err(message) => {
                return Err(message);
            },
        }
    } else if chars_are(key, "HEIGHT") {
        match number_in(
            &chars,
            &ranges,
            "Malformed HEIGHT configuration",
            "Invalid PAM height values",
        ) {
            Ok(height) => {
                metadata.height = height;
            },
            Err(message) => {
                return Err(message);
            },
        }
    } else if chars_are(key, "DEPTH") {
        match number_in(
            &chars,
            &ranges,
            "Malformed DEPTH configuration",
            "Invalid PAM depth layout",
        ) {
            Ok(depth) => {
                metadata.depth = depth;
            },
            Err(message) => {
                return Err(message);
            },
        }
    } else if chars_are(key, "MAXVAL") {
        match number_in(
            &chars,
            &ranges,
            "Malformed MAXVAL configuration",
            "Invalid PAM maxval range",
        ) {
            Ok(maxval) => {
                metadata.maxval = maxval;
            },
            Err(message) => {
                return Err(message);
            },
        }
    } else if chars_are(key, "TUPLTYPE") {
        if ranges.len() < 2 {
            return Err("Malformed TUPLTYPE attributes");
        }
        let (start, end) = ranges[1];
        let name: &str = line.substring_char(start, end);
        set_tuple_type(metadata, name.as_bytes());
    } else if chars_are(key, "ENDHDR") {
        return Ok(true);
    }
    Ok(false)
}

/// Reads the lines of a PAM header.
fn read_pam_lines<R: ByteSource>(io: &mut Channel<R>) -> (result: Result<PpmPamMetadata, String>)
    ensures
        reached(read_call::<R>(1), *old(io), *final(io)),
        only_read(old(io)@, final(io)@),
        ({
            let used = played(old(io)@, final(io)@);
            let fresh = fresh_header(Format::Pam);
            used.len() < u64::MAX ==> match result {
                Ok(metadata) => forall|more: Tape| #[trigger]
                    pam_lines(fresh, used + more) == (Outcome::Done {
                        value: metadata@,
                        rest: more,
                    }),
                Err(message) => forall|more: Tape| #[trigger]
                    pam_lines(fresh, used + more) == (Outcome::<Header>::Failed {
                        message: message@,
                        rest: more,
                    }),
            }
        }),
{
    let ghost c0 = *io;
    let ghost h0 = io@;
    let ghost fresh = fresh_header(Format::Pam);
    let mut metadata: PpmPamMetadata = fresh_metadata(Format::Pam);
    let mut budget: u64 = u64::MAX;
    proof {
        lemma_not_read_yet(c0);
        assert forall|more: Tape| #[trigger]
            pam_lines(fresh, played(h0, io@) + more) == pam_lines(metadata@, more) by {
            assert(played(h0, io@) + more =~= more);
        }
    }
    loop
        invariant
            h0 == old(io)@,
            fresh == fresh_header(Format::Pam),
            c0 == *old(io),
            reached(read_call::<R>(1), c0, *io),
            only_read(h0, io@),
            played(h0, io@).len() == u64::MAX - budget,
            forall|more: Tape| #[trigger]
                pam_lines(fresh, played(h0, io@) + more) == pam_lines(metadata@, more),
        decreases budget,
    {
        let ghost c1 = *io;
        let ghost h1 = io@;
        let ghost used = played(h0, h1);
        let ghost header0 = metadata@;
        let end = read_line(io, &mut budget);
        let ghost bytes = played(h1, io@);
        proof {
            lemma_bytes_on(c0, c1, *io);
            assert forall|more: Tape| #[trigger]
                pam_lines(fresh, played(h0, io@) + more) == pam_lines(
                    header0,
                    bytes + more,
                ) by {
                assert(played(h0, io@) + more =~= used + (bytes + more));
            }
        }
        let line: Vec<u8> = match end {
            LineEnd::Line(line) => line,
            LineEnd::Cut | LineEnd::Spent => {
                return Err("Abrupt EOF inside PAM header declarations".to_owned());
            },
        };
        let text: String = read_line_text(&line);
        match apply_line(&mut metadata, text.as_str()) {
            Ok(true) => {
                return Ok(metadata);
            },
            Ok(false) => {},
            Err(message) => {
                return Err(message.to_owned());
            },
        }
    }
}

/// Reads the three tokens of a PPM header.
fn read_ppm_tokens<R: ByteSource>(io: &mut Channel<R>, format: Format) -> (result: Result<
    PpmPamMetadata,
    String,
>)
    ensures
        reached(read_call::<R>(1), *old(io), *final(io)),
        only_read(old(io)@, final(io)@),
        ({
            let used = played(old(io)@, final(io)@);
            used.len() < u64::MAX ==> match result {
                Ok(metadata) => forall|more: Tape| #[trigger]
                    ppm_tokens(format, used + more) == (Outcome::Done {
                        value: metadata@,
                        rest: more,
                    }),
                Err(message) => forall|more: Tape| #[trigger]
                    ppm_tokens(format, used + more) == (Outcome::<Header>::Failed {
                        message: message@,
                        rest: more,
                    }),
            }
        }),
{
    let mut metadata: PpmPamMetadata = fresh_metadata(format);
    metadata.depth = 3;
    let ghost c0 = *io;
    let ghost h0 = io@;
    let w_str: String = match next_ppm_token(io) {
        Ok(token) => token,
        Err(message) => {
            return Err(message);
        },
    };
    let ghost c1 = *io;
    let ghost h1 = io@;
    let ghost first = played(h0, h1);
    let second_token = next_ppm_token(io);
    proof {
        lemma_bytes_on(c0, c1, *io);
    }
    let h_str: String = match second_token {
        Ok(token) => token,
        Err(message) => {
            proof {
                let second = played(h1, io@);
                assert forall|more: Tape| #[trigger]
                    ppm_tokens(format, first + second + more) == ppm_tokens(
                        format,
                        first + (second + more),
                    ) by {
                    assert(first + second + more =~= first + (second + more));
                }
            }
            return Err(message);
        },
    };
    let ghost c2 = *io;
    let ghost h2 = io@;
    let ghost second = played(h1, h2);
    let third_token = next_ppm_token(io);
    let ghost third = played(h2, io@);
    proof {
        lemma_bytes_on(c0, c2, *io);
        assert forall|more: Tape| #[trigger]
            ppm_tokens(format, first + second + third + more) == ppm_tokens(
                format,
                first + (second + (third + more)),
            ) by {
            assert(first + second + third + more =~= first + (second + (third + more)));
        }
    }
    let m_str: String = match third_token {
        Ok(token) => token,
        Err(message) => {
            return Err(message);
        },
    };
    metadata.width = match parse_u32(&chars_of(w_str.as_str())) {
        Some(width) => width,
        None => {
            return Err("Invalid width integer".to_owned());
        },
    };
    metadata.height = match parse_u32(&chars_of(h_str.as_str())) {
        Some(height) => height,
        None => {
            return Err("Invalid height integer".to_owned());
        },
    };
    metadata.maxval = match parse_u32(&chars_of(m_str.as_str())) {
        Some(maxval) => maxval,
        None => {
            return Err("Invalid maxval integer".to_owned());
        },
    };
    Ok(metadata)
}

/// Why an image could not be read.
#[derive(Debug)]
pub enum PpmPamFailure {
    /// The source or the image is at fault.
    Message(String),
    /// A size has no representation on this machine.
    Overflow,
}

/// A header that could not be read, with the source that it was read from.
pub struct HeaderError<R> {
    pub reader: Channel<R>,
    pub failure: PpmPamFailure,
}

/// An image that is being read, row by row.
pub struct PpmPamDecoder<R> {
    pub reader: Channel<R>,
    pub metadata: PpmPamMetadata,
    /// The next row.
    pub current_row: u32,
    pub bytes_per_row: usize,
}

impl<R> PpmPamDecoder<R> {
    /// The bytes of a row follow from the metadata, and no row comes after the last.
    pub open spec fn wf(&self) -> bool {
        &&& self.bytes_per_row == self.metadata@.row_bytes()
        &&& self.current_row <= self.metadata.height
    }
}

/// The source after its header was read or could not be read.
pub open spec fn reader_of<R>(result: Result<PpmPamDecoder<R>, HeaderError<R>>) -> Channel<R> {
    match result {
        Ok(decoder) => decoder.reader,
        Err(error) => error.reader,
    }
}

/// One call was made, which asked for two bytes.
pub open spec fn header_begun<R: ByteSource>(before: Channel<R>, after: Channel<R>) -> bool {
    &&& reached(read_call::<R>(2), before, after)
    &&& after.calls().len() == before.calls().len() + 1
}

/// The calls that read a header: one for two bytes, and then any number for one byte each.
pub open spec fn header_calls<R: ByteSource>(before: Channel<R>, after: Channel<R>) -> bool {
    &&& reached(source_call::<R>(), before, after)
    &&& exists|begun: Channel<R>| #[trigger]
        header_begun(before, begun) && reached(read_call::<R>(1), begun, after)
}

/// What reading a header through a channel gives.
pub open spec fn header_result<R>(
    before: History,
    result: Result<PpmPamDecoder<R>, HeaderError<R>>,
) -> bool {
    match result {
        Ok(decoder) => {
            let used = played(before, decoder.reader@);
            &&& only_read(before, decoder.reader@)
            &&& decoder.wf()
            &&& decoder.current_row == 0
            &&& used.len() < u64::MAX ==> read_header(used) == (Outcome::Done {
                value: decoder.metadata@,
                rest: Seq::empty(),
            })
        },
        Err(error) => {
            let used = played(before, error.reader@);
            &&& only_read(before, error.reader@)
            &&& used.len() < u64::MAX ==> match error.failure {
                PpmPamFailure::Message(message) => read_header(used) == (Outcome::<
                    Header,
                >::Failed { message: message@, rest: Seq::empty() }),
                PpmPamFailure::Overflow => read_header(used) matches Outcome::Done { value, rest }
                    && rest.len() == 0 && value.row_bytes() > usize::MAX,
            }
        },
    }
}

/// The bytes of a row, if a machine-sized number holds them.
fn row_bytes(metadata: &PpmPamMetadata) -> (bytes: Option<usize>)
    ensures
        match bytes {
            Some(bytes) => bytes == metadata@.row_bytes(),
            None => metadata@.row_bytes() > usize::MAX,
        },
{
    let bytes_per_sample: u128 = if metadata.maxval > 255 {
        2
    } else {
        1
    };
    proof {
        assert(0 <= metadata.width * metadata.depth <= 0xffff_ffff * 0xffff_ffff)
            by (nonlinear_arith)
            requires
                0 <= metadata.width <= 0xffff_ffff,
                0 <= metadata.depth <= 0xffff_ffff,
        ;
    }
    let samples: u64 = metadata.width as u64 * metadata.depth as u64;
    let bytes: u128 = samples as u128 * bytes_per_sample;
    if bytes <= usize::MAX as u128 {
        Some(bytes as usize)
    } else {
        None
    }
}

/// Reads the header of an image. On failure the source is handed back.
pub fn parse_headers<R: ByteSource>(reader: Channel<R>) -> (result: Result<
    PpmPamDecoder<R>,
    HeaderError<R>,
>)
    ensures
        header_calls(reader, reader_of(result)),
        header_result(reader@, result),
{
    let mut reader = reader;
    let ghost c0 = reader;
    let ghost h0 = reader@;
    proof {
        lemma_not_read_yet(c0);
        lemma_since(h0, h0);
    }
    let magic: Option<Vec<u8>> = reader.receive(2);
    proof {
        lemma_read_on(c0, c0, reader);
        lemma_not_read_yet(reader);
        assert(header_begun(c0, reader));
    }
    let magic: Vec<u8> = match magic {
        Some(magic) => magic,
        None => {
            proof {
                let used = played(h0, reader@);
                assert(used =~= seq![Err::<u8, nat>(2)]);
                assert(used.skip(1) =~= Seq::empty());
            }
            return Err(
                HeaderError {
                    reader,
                    failure: PpmPamFailure::Message(
                        "Failed to verify image magic bytes".to_owned(),
                    ),
                },
            );
        },
    };
    let ghost c1 = reader;
    let ghost h1 = reader@;
    let ghost first = played(h0, h1);
    proof {
        assert(first =~= seq![Ok::<u8, nat>(magic@[0]), Ok::<u8, nat>(magic@[1])]);
        assert(first.skip(2) =~= Seq::empty());
    }
    let read = if magic[0] == 80 && magic[1] == 51 {
        read_ppm_tokens(&mut reader, Format::PpmAscii)
    } else if magic[0] == 80 && magic[1] == 54 {
        read_ppm_tokens(&mut reader, Format::PpmBinary)
    } else if magic[0] == 80 && magic[1] == 55 {
        read_pam_lines(&mut reader)
    } else {
        return Err(
            HeaderError {
                reader,
                failure: PpmPamFailure::Message(
                    "Invalid format identifier: signature must be P3, P6, or P7".to_owned(),
                ),
            },
        );
    };
    proof {
        let second = played(h1, reader@);
        let used = played(h0, reader@);
        lemma_sized_reached(1, c1, reader);
        lemma_read_on(c0, c1, reader);
        assert(used.skip(2) =~= second + Seq::empty());
        assert(used[0] == Ok::<u8, nat>(magic@[0]) && used[1] == Ok::<u8, nat>(magic@[1]));
    }
    let metadata: PpmPamMetadata = match read {
        Ok(metadata) => metadata,
        Err(message) => {
            return Err(HeaderError { reader, failure: PpmPamFailure::Message(message) });
        },
    };
    match row_bytes(&metadata) {
        Some(bytes_per_row) => Ok(
            PpmPamDecoder { reader, metadata, current_row: 0, bytes_per_row },
        ),
        None => Err(HeaderError { reader, failure: PpmPamFailure::Overflow }),
    }
}

/// A sample as it is stored: the low bytes of its value, two of them if samples are wide.
pub open spec fn sample_form(value: u32, wide: bool) -> Seq<u8> {
    if wide {
        seq![(value / 0x100 % 0x100) as u8, (value % 0x100) as u8]
    } else {
        seq![(value % 0x100) as u8]
    }
}

/// What reading samples comes to: the bytes that were stored, and how it went.
pub enum Samples {
    Done { stored: Seq<u8>, rest: Tape },
    Failed { stored: Seq<u8>, message: Seq<char>, rest: Tape },
    More,
}

/// Reads `count` more samples after those in `stored`, one token each.
pub open spec fn read_samples(stored: Seq<u8>, count: nat, wide: bool, tape: Tape) -> Samples
    decreases count,
{
    if count == 0 {
        Samples::Done { stored, rest: tape }
    } else {
        match read_token(tape) {
            Outcome::Failed { message, rest } => Samples::Failed { stored, message, rest },
            Outcome::More => Samples::More,
            Outcome::Done { value, rest } => match parsed_u32(value) {
                Some(value) => read_samples(
                    stored + sample_form(value, wide),
                    (count - 1) as nat,
                    wide,
                    rest,
                ),
                None => Samples::Failed {
                    stored,
                    message: "Invalid integer token inside ASCII pixel matrix"@,
                    rest,
                },
            },
        }
    }
}

/// Reads `count` samples into the start of `out_buf`.
fn scan_samples<R: ByteSource>(
    io: &mut Channel<R>,
    count: usize,
    wide: bool,
    out_buf: &mut [u8],
) -> (end: Result<(), String>)
    requires
        count * (if wide {
            2int
        } else {
            1
        }) <= old(out_buf)@.len(),
    ensures
        reached(read_call::<R>(1), *old(io), *final(io)),
        only_read(old(io)@, final(io)@),
        ({
            let used = played(old(io)@, final(io)@);
            used.len() < u64::MAX ==> match end {
                Ok(_) => read_samples(Seq::empty(), count as nat, wide, used) matches Samples::Done {
                    stored,
                    rest,
                } && rest.len() == 0 && final(out_buf)@ == splice(old(out_buf)@, 0, stored),
                Err(message) => read_samples(
                    Seq::empty(),
                    count as nat,
                    wide,
                    used,
                ) matches Samples::Failed { stored, message: wanted, rest } && wanted == message@
                    && rest.len() == 0 && final(out_buf)@ == splice(old(out_buf)@, 0, stored),
            }
        }),
{
    let ghost c0 = *io;
    let ghost h0 = io@;
    let ghost none = Seq::<u8>::empty();
    let ghost out0 = out_buf@;
    let ghost size: int = if wide {
        2
    } else {
        1
    };
    let ghost mut stored: Seq<u8> = Seq::empty();
    let mut done: usize = 0;
    let mut buf_idx: usize = 0;
    proof {
        assert(out_buf@ =~= splice(out0, 0, stored));
        lemma_not_read_yet(c0);
        assert forall|more: Tape| #[trigger]
            read_samples(none, count as nat, wide, played(h0, io@) + more) == read_samples(
                stored,
                count as nat,
                wide,
                more,
            ) by {
            assert(played(h0, io@) + more =~= more);
        }
    }
    while done < count
        invariant
            h0 == old(io)@,
            out0 == old(out_buf)@,
            none == Seq::<u8>::empty(),
            size == (if wide {
                2int
            } else {
                1
            }),
            count * size <= out_buf.len(),
            out_buf@.len() == out0.len(),
            done <= count,
            buf_idx == done * size,
            stored.len() == buf_idx,
            out_buf@ == splice(out0, 0, stored),
            c0 == *old(io),
            reached(read_call::<R>(1), c0, *io),
            only_read(h0, io@),
            played(h0, io@).len() < u64::MAX ==> forall|more: Tape| #[trigger]
                read_samples(none, count as nat, wide, played(h0, io@) + more) == read_samples(
                    stored,
                    (count - done) as nat,
                    wide,
                    more,
                ),
        decreases count - done,
    {
        let ghost c1 = *io;
        let ghost h1 = io@;
        let ghost used = played(h0, h1);
        let ghost stored0 = stored;
        let token = next_ppm_token(io);
        let ghost bytes = played(h1, io@);
        let ghost nothing: Tape = Seq::empty();
        proof {
            lemma_bytes_on(c0, c1, *io);
            assert(played(h0, io@) + nothing =~= played(h0, io@));
            if played(h0, io@).len() < u64::MAX {
                assert forall|more: Tape| #[trigger]
                    read_samples(none, count as nat, wide, played(h0, io@) + more) == read_samples(
                        stored0,
                        (count - done) as nat,
                        wide,
                        bytes + more,
                    ) by {
                    assert(played(h0, io@) + more =~= used + (bytes + more));
                }
            }
            assert(done * size + size <= count * size && (done + 1) * size == done * size + size)
                by (nonlinear_arith)
                requires
                    done + 1 <= count,
                    size >= 1,
            ;
        }
        let token: String = match token {
            Ok(token) => token,
            Err(message) => {
                return Err(message);
            },
        };
        let val: u32 = match parse_u32(&chars_of(token.as_str())) {
            Some(val) => val,
            None => {
                return Err("Invalid integer token inside ASCII pixel matrix".to_owned());
            },
        };
        if wide {
            out_buf[buf_idx] = (val / 0x100 % 0x100) as u8;
            out_buf[buf_idx + 1] = (val % 0x100) as u8;
            buf_idx += 2;
        } else {
            out_buf[buf_idx] = (val % 0x100) as u8;
            buf_idx += 1;
        }
        proof {
            stored = stored + sample_form(val, wide);
            assert(out_buf@ =~= splice(out0, 0, stored));
        }
        done += 1;
    }
    proof {
        let nothing: Tape = Seq::empty();
        assert(played(h0, io@) + nothing =~= played(h0, io@));
    }
    Ok(())
}

impl Header {
    /// How many of `wanted` rows are left from row `row` on.
    pub open spec fn rows_left(self, row: u32, wanted: u32) -> int {
        if row >= self.height {
            0
        } else if wanted < self.height - row {
            wanted as int
        } else {
            self.height - row
        }
    }
}

/// The bytes on a tape.
pub open spec fn bytes_on(tape: Tape) -> Seq<u8> {
    Seq::new(tape.len(), |i: int| tape[i]->Ok_0)
}

/// The calls that read rows: in binary images one for all of them, in ASCII images any number
/// for one byte each.
pub open spec fn rows_calls<R: ByteSource>(
    format: Format,
    before: Channel<R>,
    after: Channel<R>,
) -> bool {
    &&& reached(source_call::<R>(), before, after)
    &&& match format {
        Format::PpmBinary | Format::Pam => after.calls().len() <= before.calls().len() + 1,
        Format::PpmAscii => reached(read_call::<R>(1), before, after),
        Format::Unknown => after == before,
    }
}

/// What reading `wanted` rows into a buffer does.
///
/// Samples are stored as they come, or in ASCII images as `read_samples` says. Nothing is
/// read where no row is left, where a size is too large or where the buffer is too small.
/// A failed read of a binary image leaves the buffer as it is; a failed read of an ASCII
/// image leaves the samples before the failure in it.
pub open spec fn rows_read<R>(
    before: PpmPamDecoder<R>,
    after: PpmPamDecoder<R>,
    wanted: u32,
    buffer: Seq<u8>,
    filled: Seq<u8>,
    result: Result<u32, PpmPamFailure>,
) -> bool {
    let header = before.metadata@;
    let lines = header.rows_left(before.current_row, wanted);
    let total = lines * before.bytes_per_row;
    let used = played(before.reader@, after.reader@);
    let failed = |text: Seq<char>| result matches Err(PpmPamFailure::Message(message)) && message@
        == text;
    let untouched = used.len() == 0 && filled == buffer;
    &&& only_read(before.reader@, after.reader@)
    &&& after.metadata == before.metadata
    &&& after.bytes_per_row == before.bytes_per_row
    &&& after.current_row == before.current_row + (if result is Ok {
        lines
    } else {
        0
    })
    &&& result matches Ok(count) ==> count == lines
    &&& if before.current_row >= header.height {
        result is Ok && untouched
    } else if header.width * header.depth > u32::MAX || total > usize::MAX {
        (result matches Err(failure) && failure is Overflow) && untouched
    } else if buffer.len() < total {
        failed("Target layout output buffer capacity is too small"@) && untouched
    } else {
        match header.format {
            Format::Unknown => failed("Processing an unrecognized file stream layout"@)
                && untouched,
            Format::PpmBinary | Format::Pam => {
                ||| {
                    &&& result is Ok
                    &&& used == crate::channel::delivered(bytes_on(used))
                    &&& used.len() == total
                    &&& filled == splice(buffer, 0, bytes_on(used))
                }
                ||| {
                    &&& failed("Failed reading target binary stream payload"@)
                    &&& total > 0
                    &&& used == seq![Err::<u8, nat>(total as nat)]
                    &&& filled == buffer
                }
            },
            Format::PpmAscii => {
                let count = (lines * (header.width * header.depth)) as nat;
                let read = read_samples(Seq::empty(), count, header.maxval > 255, used);
                used.len() < u64::MAX ==> match read {
                    Samples::Done { stored, rest } => result is Ok && rest.len() == 0 && filled
                        == splice(buffer, 0, stored),
                    Samples::Failed { stored, message, rest } => failed(message) && rest.len() == 0
                        && filled == splice(buffer, 0, stored),
                    Samples::More => false,
                }
            },
        }
    }
}

impl<R: ByteSource> PpmPamDecoder<R> {
    /// Reads up to `num_scanlines` rows into the start of `out_buf`; gives their number.
    pub fn read_scanlines(&mut self, num_scanlines: u32, out_buf: &mut [u8]) -> (lines: Result<
        u32,
        PpmPamFailure,
    >)
        requires
            old(self).wf(),
        ensures
            final(self).wf(),
            rows_calls(old(self).metadata.format, old(self).reader, final(self).reader),
            rows_read(
                *old(self),
                *final(self),
                num_scanlines,
                old(out_buf)@,
                final(out_buf)@,
                lines,
            ),
    {
        let ghost c0 = self.reader;
        let ghost h0 = self.reader@;
        let ghost header = self.metadata@;
        proof {
            lemma_not_read_yet(c0);
            lemma_since(h0, h0);
        }
        if self.current_row >= self.metadata.height {
            return Ok(0);
        }
        let rows: u32 = self.metadata.height - self.current_row;
        let lines_to_read: u32 = if num_scanlines < rows {
            num_scanlines
        } else {
            rows
        };
        let samples_per_row: u32 = match self.metadata.width.checked_mul(self.metadata.depth) {
            Some(samples) => samples,
            None => {
                return Err(PpmPamFailure::Overflow);
            },
        };
        let total_bytes_needed: usize = match (lines_to_read as usize).checked_mul(
            self.bytes_per_row,
        ) {
            Some(total) => total,
            None => {
                return Err(PpmPamFailure::Overflow);
            },
        };
        if out_buf.len() < total_bytes_needed {
            return Err(
                PpmPamFailure::Message(
                    "Target layout output buffer capacity is too small".to_owned(),
                ),
            );
        }
        match self.metadata.format {
            Format::PpmBinary | Format::Pam => {
                if total_bytes_needed > 0 {
                    let bytes: Option<Vec<u8>> = self.reader.receive(total_bytes_needed);
                    proof {
                        lemma_read_on(c0, c0, self.reader);
                    }
                    match bytes {
                        Some(bytes) => {
                            proof {
                                let used = played(h0, self.reader@);
                                assert(used =~= crate::channel::delivered(bytes@));
                                assert(bytes_on(used) =~= bytes@);
                            }
                            crate::bytes::copy_bytes(out_buf, 0, &bytes, 0, total_bytes_needed);
                            assert(bytes@.subrange(0, total_bytes_needed as int) =~= bytes@);
                        },
                        None => {
                            assert(played(h0, self.reader@) =~= seq![
                                Err::<u8, nat>(total_bytes_needed as nat),
                            ]);
                            return Err(
                                PpmPamFailure::Message(
                                    "Failed reading target binary stream payload".to_owned(),
                                ),
                            );
                        },
                    }
                } else {
                    proof {
                        let used = played(h0, self.reader@);
                        assert(used =~= crate::channel::delivered(bytes_on(used)));
                        assert(out_buf@ =~= splice(out_buf@, 0, bytes_on(used)));
                    }
                }
            },
            Format::PpmAscii => {
                let wide: bool = self.metadata.maxval > 255;
                let ghost size = header.sample_bytes();
                proof {
                    assert(lines_to_read * (samples_per_row * size) == lines_to_read
                        * samples_per_row * size) by (nonlinear_arith);
                    assert(0 <= lines_to_read * samples_per_row <= lines_to_read * samples_per_row
                        * size) by (nonlinear_arith)
                        requires
                            1 <= size,
                            0 <= lines_to_read,
                            0 <= samples_per_row,
                    ;
                }
                let count: usize = lines_to_read as usize * samples_per_row as usize;
                let scanned = scan_samples(&mut self.reader, count, wide, out_buf);
                proof {
                    lemma_sized_reached(1, c0, self.reader);
                }
                match scanned {
                    Ok(_) => {},
                    Err(message) => {
                        return Err(PpmPamFailure::Message(message));
                    },
                }
            },
            Format::Unknown => {
                return Err(
                    PpmPamFailure::Message(
                        "Processing an unrecognized file stream layout".to_owned(),
                    ),
                );
            },
        }
        self.current_row = self.current_row + lines_to_read;
        Ok(lines_to_read)
    }
}

/// Opens an image: reads its header and copies the metadata out. Without a place for the
/// metadata nothing is read.
pub fn ppmpam_open_stream<R: ByteSource>(
    reader: Channel<R>,
    out_meta: Option<&mut PpmPamMetadata>,
) -> (opened: Result<PpmPamDecoder<R>, Option<HeaderError<R>>>)
    ensures
        out_meta is None ==> (opened matches Err(error) && error is None),
        out_meta matches Some(meta) ==> match opened {
            Ok(decoder) => {
                &&& header_calls(reader, decoder.reader)
                &&& header_result(reader@, Ok(decoder))
                &&& *final(meta) == decoder.metadata
            },
            Err(error) => {
                &&& error matches Some(error)
                &&& header_calls(reader, error.reader)
                &&& header_result(reader@, Err(error))
                &&& *final(meta) == *meta
            },
        },
{
    let meta: &mut PpmPamMetadata = match out_meta {
        Some(meta) => meta,
        None => {
            return Err(None);
        },
    };
    match parse_headers(reader) {
        Ok(decoder) => {
            *meta = decoder.metadata;
            Ok(decoder)
        },
        Err(error) => Err(Some(error)),
    }
}

/// Reads rows and tells how it went: 0 with the number of rows in `out_lines_read`, -1 if
/// an argument is missing, -2 if reading failed. `None` if a size has no representation on
/// this machine.
pub fn ppmpam_read_scanlines<R: ByteSource>(
    decoder: Option<&mut PpmPamDecoder<R>>,
    num_scanlines: u32,
    out_buf: Option<&mut [u8]>,
    out_lines_read: Option<&mut u32>,
) -> (code: Option<i32>)
    requires
        decoder matches Some(decoder) ==> decoder.wf(),
    ensures
        decoder is None || out_buf is None || out_lines_read is None ==> {
            &&& code matches Some(code) && code == -1
            &&& decoder matches Some(decoder) ==> *final(decoder) == *decoder
            &&& out_buf matches Some(buffer) ==> final(buffer)@ == buffer@
            &&& out_lines_read matches Some(lines) ==> *final(lines) == *lines
        },
        decoder matches Some(decoder) ==> out_buf matches Some(buffer) ==> out_lines_read matches Some(
            lines,
        ) ==> exists|result: Result<u32, PpmPamFailure>|
            {
                &&& rows_calls(decoder.metadata.format, decoder.reader, final(decoder).reader)
                &&& #[trigger] rows_read(
                    *decoder,
                    *final(decoder),
                    num_scanlines,
                    buffer@,
                    final(buffer)@,
                    result,
                )
                &&& match result {
                    Ok(count) => *final(lines) == count && code == Some(0i32),
                    Err(PpmPamFailure::Message(_)) => *final(lines) == *lines && code == Some(
                        -2i32,
                    ),
                    Err(PpmPamFailure::Overflow) => *final(lines) == *lines && code is None,
                }
            },
{
    if decoder.is_none() || out_buf.is_none() || out_lines_read.is_none() {
        return Some(-1);
    }
    let dec: &mut PpmPamDecoder<R> = match decoder {
        Some(dec) => dec,
        None => {
            return Some(-1);
        },
    };
    let buffer: &mut [u8] = match out_buf {
        Some(buffer) => buffer,
        None => {
            return Some(-1);
        },
    };
    let lines: &mut u32 = match out_lines_read {
        Some(lines) => lines,
        None => {
            return Some(-1);
        },
    };
    let ghost before = *dec;
    let ghost buffer0 = buffer@;
    let result = dec.read_scanlines(num_scanlines, buffer);
    let ghost outcome = result;
    assert(rows_read(before, *dec, num_scanlines, buffer0, buffer@, outcome));
    match result {
        Ok(count) => {
            *lines = count;
            Some(0)
        },
        Err(PpmPamFailure::Message(_)) => Some(-2),
        Err(PpmPamFailure::Overflow) => None,
    }
}

} // verus!
