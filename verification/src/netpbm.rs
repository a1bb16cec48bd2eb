//! What holds of reading the headers of image files beyond a single call: tokens come in
//! order, and PAM lines may be arranged freely.

use crate::channel::{delivered, lemma_since_joins, History};
use crate::ppmpam::{
    fresh_header, header_result, pam_field, pam_lines, played, read_header, read_token, scan_line,
    scan_token, separates, token_read, Field, Format, Header, HeaderError, Outcome, PpmPamDecoder,
    Tape,
};
use crate::text::{line_text, words};
use vstd::prelude::*;
use vstd::utf8::{decode_utf8, valid_utf8};

verus! {

/// Whether `bytes` are nothing but separators and comments that have ended.
pub open spec fn blank(bytes: Seq<u8>, in_comment: bool) -> bool
    decreases bytes.len(),
{
    if bytes.len() == 0 {
        !in_comment
    } else if in_comment {
        blank(bytes.skip(1), bytes[0] != 10 && bytes[0] != 13)
    } else if bytes[0] == 35 {
        blank(bytes.skip(1), true)
    } else {
        separates(bytes[0]) && blank(bytes.skip(1), false)
    }
}

/// A word among blanks: what stands before it, and the byte that ends it.
pub struct Spaced {
    pub before: Seq<u8>,
    pub word: Seq<u8>,
    pub end: u8,
}

impl Spaced {
    /// The word is valid UTF-8 and holds no separators and no `#`.
    pub open spec fn wf(self) -> bool {
        &&& blank(self.before, false)
        &&& self.word.len() > 0
        &&& forall|i: int|
            0 <= i < self.word.len() ==> !separates(#[trigger] self.word[i]) && self.word[i] != 35
        &&& valid_utf8(self.word)
        &&& separates(self.end)
    }

    /// The bytes of all of it.
    pub open spec fn bytes(self) -> Seq<u8> {
        self.before + self.word + seq![self.end]
    }
}

/// The bytes of some words.
pub open spec fn text_of(entries: Seq<Spaced>) -> Seq<u8>
    decreases entries.len(),
{
    if entries.len() == 0 {
        Seq::empty()
    } else {
        entries.first().bytes() + text_of(entries.drop_first())
    }
}

/// The words as characters.
pub open spec fn words_of(entries: Seq<Spaced>) -> Seq<Seq<char>> {
    Seq::new(entries.len(), |i: int| decode_utf8(entries[i].word))
}

/// Reads `count` tokens, one after the other.
pub open spec fn read_tokens(count: nat, tape: Tape) -> Outcome<Seq<Seq<char>>>
    decreases count,
{
    if count == 0 {
        Outcome::Done { value: Seq::empty(), rest: tape }
    } else {
        match read_token(tape) {
            Outcome::Failed { message, rest } => Outcome::Failed { message, rest },
            Outcome::More => Outcome::More,
            Outcome::Done { value: first, rest } => match read_tokens((count - 1) as nat, rest) {
                Outcome::Done { value, rest } => Outcome::Done { value: seq![first] + value, rest },
                other => other,
            },
        }
    }
}

/// The first byte of what was delivered, and what comes after it.
pub proof fn lemma_delivered(bytes: Seq<u8>, rest: Tape)
    ensures
        bytes.len() > 0 ==> {
            &&& (delivered(bytes) + rest)[0] == Ok::<u8, nat>(bytes[0])
            &&& (delivered(bytes) + rest).skip(1) == delivered(bytes.skip(1)) + rest
        },
        bytes.len() == 0 ==> delivered(bytes) + rest == rest,
{
    if bytes.len() > 0 {
        assert((delivered(bytes) + rest).skip(1) =~= delivered(bytes.skip(1)) + rest);
    } else {
        assert(delivered(bytes) + rest =~= rest);
    }
}

/// What was delivered in two parts.
pub proof fn lemma_delivered_joins(a: Seq<u8>, b: Seq<u8>, rest: Tape)
    ensures
        delivered(a + b) + rest == delivered(a) + (delivered(b) + rest),
        delivered(a + b) == delivered(a) + delivered(b),
{
    assert(delivered(a + b) =~= delivered(a) + delivered(b));
    assert(delivered(a + b) + rest =~= delivered(a) + (delivered(b) + rest));
}

/// Blanks before a token are skipped.
proof fn lemma_blank_skipped(bytes: Seq<u8>, in_comment: bool, rest: Tape)
    requires
        blank(bytes, in_comment),
    ensures
        scan_token(Seq::empty(), in_comment, delivered(bytes) + rest) == scan_token(
            Seq::empty(),
            false,
            rest,
        ),
    decreases bytes.len(),
{
    lemma_delivered(bytes, rest);
    if bytes.len() > 0 {
        let c = bytes[0];
        if in_comment {
            lemma_blank_skipped(bytes.skip(1), c != 10 && c != 13, rest);
        } else if c == 35 {
            lemma_blank_skipped(bytes.skip(1), true, rest);
        } else {
            lemma_blank_skipped(bytes.skip(1), false, rest);
        }
    }
}

/// A word goes on up to its separator.
proof fn lemma_word_scanned(token: Seq<u8>, word: Seq<u8>, end: u8, rest: Tape)
    requires
        token.len() + word.len() > 0,
        forall|i: int| 0 <= i < word.len() ==> !separates(#[trigger] word[i]) && word[i] != 35,
        separates(end),
    ensures
        scan_token(token, false, delivered(word) + (seq![Ok::<u8, nat>(end)] + rest)) == (
        Outcome::Done { value: token + word, rest }),
    decreases word.len(),
{
    let after = seq![Ok::<u8, nat>(end)] + rest;
    lemma_delivered(word, after);
    if word.len() == 0 {
        assert(after[0] == Ok::<u8, nat>(end));
        assert(after.skip(1) =~= rest);
        assert(token + word =~= token);
    } else {
        let fewer = word.skip(1);
        assert(!separates(word[0]) && word[0] != 35);
        assert forall|i: int| 0 <= i < fewer.len() implies !separates(#[trigger] fewer[i])
            && fewer[i] != 35 by {
            assert(!separates(word[i + 1]));
        }
        lemma_word_scanned(token.push(word[0]), fewer, end, rest);
        assert(token.push(word[0]) + fewer =~= token + word);
    }
}

/// A word among blanks is the next token.
pub proof fn lemma_spaced_read(entry: Spaced, rest: Tape)
    requires
        entry.wf(),
    ensures
        read_token(delivered(entry.bytes()) + rest) == (Outcome::Done {
            value: decode_utf8(entry.word),
            rest,
        }),
{
    let end = seq![entry.end];
    let after = seq![Ok::<u8, nat>(entry.end)] + rest;
    lemma_delivered_joins(entry.before + entry.word, end, rest);
    assert(delivered(end) =~= seq![Ok::<u8, nat>(entry.end)]);
    lemma_delivered_joins(entry.before, entry.word, after);
    lemma_blank_skipped(entry.before, false, delivered(entry.word) + after);
    lemma_word_scanned(Seq::empty(), entry.word, entry.end, rest);
    assert(Seq::<u8>::empty() + entry.word =~= entry.word);
}

/// Tokens that are read one after the other come in order, whatever blanks and comments
/// stand between them, and what follows them is left over.
pub proof fn tokens_come_in_order(entries: Seq<Spaced>, rest: Tape)
    requires
        forall|i: int| 0 <= i < entries.len() ==> (#[trigger] entries[i]).wf(),
    ensures
        read_tokens(entries.len(), delivered(text_of(entries)) + rest) == (Outcome::Done {
            value: words_of(entries),
            rest,
        }),
    decreases entries.len(),
{
    if entries.len() == 0 {
        lemma_delivered(text_of(entries), rest);
        assert(words_of(entries) =~= Seq::empty());
    } else {
        let first = entries.first();
        let others = entries.drop_first();
        assert(entries[0].wf());
        assert forall|i: int| 0 <= i < others.len() implies (#[trigger] others[i]).wf() by {
            assert(entries[i + 1].wf());
        }
        lemma_delivered_joins(first.bytes(), text_of(others), rest);
        lemma_spaced_read(first, delivered(text_of(others)) + rest);
        tokens_come_in_order(others, rest);
        assert(seq![decode_utf8(first.word)] + words_of(others) =~= words_of(entries));
    }
}

/// Whether `bytes` are nothing but separators and comments, the last of which need not have
/// ended.
pub open spec fn only_blank(bytes: Seq<u8>, in_comment: bool) -> bool
    decreases bytes.len(),
{
    if bytes.len() == 0 {
        true
    } else if in_comment {
        only_blank(bytes.skip(1), bytes[0] != 10 && bytes[0] != 13)
    } else if bytes[0] == 35 {
        only_blank(bytes.skip(1), true)
    } else {
        separates(bytes[0]) && only_blank(bytes.skip(1), false)
    }
}

/// A source that ends: bytes, and then a read that fails.
pub open spec fn ending(bytes: Seq<u8>, rest: Tape) -> Tape {
    delivered(bytes) + (seq![Err::<u8, nat>(1)] + rest)
}

proof fn lemma_ending_scanned(token: Seq<u8>, in_comment: bool, bytes: Seq<u8>, rest: Tape)
    ensures
        token.len() == 0 && only_blank(bytes, in_comment) ==> scan_token(
            token,
            in_comment,
            ending(bytes, rest),
        ) == (Outcome::<Seq<u8>>::Failed {
            message: "Unexpected End-of-File reached while decoding header"@,
            rest,
        }),
        token.len() > 0 || !only_blank(bytes, in_comment) ==> scan_token(
            token,
            in_comment,
            ending(bytes, rest),
        ) is Done,
    decreases bytes.len(),
{
    let after = seq![Err::<u8, nat>(1)] + rest;
    lemma_delivered(bytes, after);
    if bytes.len() == 0 {
        assert(after[0] == Err::<u8, nat>(1));
        assert(after.skip(1) =~= rest);
    } else {
        let c = bytes[0];
        let fewer = bytes.skip(1);
        if in_comment {
            lemma_ending_scanned(token, c != 10 && c != 13, fewer, rest);
        } else if c == 35 {
            lemma_ending_scanned(token, true, fewer, rest);
        } else if separates(c) {
            lemma_ending_scanned(token, false, fewer, rest);
        } else {
            lemma_ending_scanned(token.push(c), false, fewer, rest);
        }
    }
}

/// The end of the source is reported exactly where nothing but blanks and comments come
/// before it, and all of them have then been read.
pub proof fn end_is_reported_after_blanks(bytes: Seq<u8>, rest: Tape)
    ensures
        read_token(ending(bytes, rest)) == (Outcome::<Seq<char>>::Failed {
            message: "Unexpected End-of-File reached while decoding header"@,
            rest,
        }) <==> only_blank(bytes, false),
{
    lemma_ending_scanned(Seq::empty(), false, bytes, rest);
    reveal_strlit("Unexpected End-of-File reached while decoding header");
    reveal_strlit("Header encoding is not valid UTF-8");
    assert("Unexpected End-of-File reached while decoding header"@[0]
        != "Header encoding is not valid UTF-8"@[0]);
}

/// What is left over where more follows.
pub open spec fn followed<T>(outcome: Outcome<T>, more: Tape) -> Outcome<T> {
    match outcome {
        Outcome::Done { value, rest } => Outcome::Done { value, rest: rest + more },
        Outcome::Failed { message, rest } => Outcome::Failed { message, rest: rest + more },
        Outcome::More => Outcome::More,
    }
}

proof fn lemma_scan_followed(token: Seq<u8>, in_comment: bool, tape: Tape, more: Tape)
    requires
        !(scan_token(token, in_comment, tape) is More),
    ensures
        scan_token(token, in_comment, tape + more) == followed(
            scan_token(token, in_comment, tape),
            more,
        ),
    decreases tape.len(),
{
    let whole = tape + more;
    let rest = tape.skip(1);
    assert(whole[0] == tape[0]);
    assert(whole.skip(1) =~= rest + more);
    if let Ok(c) = tape[0] {
        if in_comment {
            lemma_scan_followed(token, c != 10 && c != 13, rest, more);
        } else if c == 35 {
            lemma_scan_followed(token, true, rest, more);
        } else if separates(c) {
            if token.len() == 0 {
                lemma_scan_followed(token, false, rest, more);
            }
        } else {
            lemma_scan_followed(token.push(c), false, rest, more);
        }
    }
}

/// What follows a token does not change it.
pub proof fn token_is_settled(tape: Tape, more: Tape)
    requires
        !(read_token(tape) is More),
    ensures
        read_token(tape + more) == followed(read_token(tape), more),
{
    lemma_scan_followed(Seq::empty(), false, tape, more);
}

/// Whether a tape is what a source that holds `bytes` gives: its bytes come first, and reads
/// after them fail. No read reaches over their end.
pub open spec fn plays(tape: Tape, bytes: Seq<u8>) -> bool {
    forall|i: int|
        0 <= i < tape.len() ==> if i < bytes.len() {
            #[trigger] tape[i] == Ok::<u8, nat>(bytes[i])
        } else {
            tape[i] is Err
        }
}

/// A tape goes on with the bytes that it lacks.
spec fn played_out(tape: Tape, bytes: Seq<u8>) -> Tape {
    if tape.len() < bytes.len() {
        tape + delivered(bytes.skip(tape.len() as int))
    } else {
        tape
    }
}

proof fn lemma_played_out(tape: Tape, bytes: Seq<u8>, part: int)
    requires
        plays(tape, bytes),
        0 <= part <= bytes.len(),
    ensures
        ({
            let whole = played_out(tape, bytes);
            &&& whole == delivered(bytes.take(part)) + whole.skip(part)
            &&& whole.len() >= bytes.len()
            &&& whole.len() >= tape.len()
            &&& tape == whole.take(tape.len() as int)
        }),
{
    let whole = played_out(tape, bytes);
    assert(whole =~= delivered(bytes.take(part)) + whole.skip(part));
    assert(tape =~= whole.take(tape.len() as int));
}

/// Where a tape is read to its end and a prefix of its source has the same meaning, the
/// prefix is the tape.
proof fn lemma_same_rest(whole: Tape, a: int, b: int)
    requires
        0 <= a <= whole.len(),
        0 <= b <= whole.len(),
        whole.skip(a) == whole.skip(b),
    ensures
        a == b,
{
    assert(whole.skip(a).len() == whole.len() - a);
    assert(whole.skip(b).len() == whole.len() - b);
}

/// Nothing but blanks on a tape: no token comes, only the end.
proof fn lemma_blanks_played(bytes: Seq<u8>, in_comment: bool, tape: Tape)
    requires
        only_blank(bytes, in_comment),
        plays(tape, bytes),
    ensures
        ({
            let scanned = scan_token(Seq::empty(), in_comment, tape);
            scanned is More || (scanned matches Outcome::Failed { message, rest } && message
                == "Unexpected End-of-File reached while decoding header"@)
        }),
    decreases bytes.len(),
{
    if tape.len() > 0 && bytes.len() > 0 {
        let c = bytes[0];
        let rest = tape.skip(1);
        let fewer = bytes.skip(1);
        assert(tape[0] == Ok::<u8, nat>(c));
        assert forall|i: int| 0 <= i < rest.len() implies if i < fewer.len() {
            #[trigger] rest[i] == Ok::<u8, nat>(fewer[i])
        } else {
            rest[i] is Err
        } by {
            assert(rest[i] == tape[i + 1]);
        }
        if in_comment {
            lemma_blanks_played(fewer, c != 10 && c != 13, rest);
        } else if c == 35 {
            lemma_blanks_played(fewer, true, rest);
        } else {
            lemma_blanks_played(fewer, false, rest);
        }
    } else if tape.len() > 0 {
        assert(tape[0] is Err);
    }
}

/// Whether each of some calls reads a token after the one before it: `records` are what has
/// passed before the first call and after each call.
pub open spec fn token_calls(
    records: Seq<History>,
    results: Seq<Result<Seq<char>, Seq<char>>>,
) -> bool {
    &&& records.len() == results.len() + 1
    &&& forall|i: int|
        0 <= i < results.len() ==> token_read(records[i], records[i + 1], #[trigger] results[i])
}

proof fn lemma_calls_follow(records: Seq<History>, results: Seq<Result<Seq<char>, Seq<char>>>)
    requires
        token_calls(records, results),
    ensures
        records.last().follows(records.first()),
        results.len() > 0 ==> token_calls(records.drop_first(), results.drop_first()),
    decreases results.len(),
{
    if results.len() == 0 {
        crate::channel::lemma_since_itself(records[0]);
    } else {
        let later = results.drop_first();
        let others = records.drop_first();
        assert(token_read(records[0], records[1], results[0]));
        assert forall|i: int| 0 <= i < later.len() implies token_read(
            others[i],
            others[i + 1],
            #[trigger] later[i],
        ) by {
            assert(token_read(records[i + 1], records[i + 2], results[i + 1]));
        }
        lemma_calls_follow(others, later);
        lemma_since_joins(records[0], records[1], records.last());
    }
}

/// Calls that read tokens give the words of the source in order, none lost, split or joined,
/// and the call after the last word reports the end.
///
/// Fewer than 2^64 - 1 bytes may be read.
pub proof fn calls_give_tokens_in_order(
    entries: Seq<Spaced>,
    tail: Seq<u8>,
    records: Seq<History>,
    results: Seq<Result<Seq<char>, Seq<char>>>,
)
    requires
        forall|i: int| 0 <= i < entries.len() ==> (#[trigger] entries[i]).wf(),
        only_blank(tail, false),
        results.len() == entries.len() + 1,
        token_calls(records, results),
        plays(played(records.first(), records.last()), text_of(entries) + tail),
        played(records.first(), records.last()).len() < u64::MAX,
    ensures
        forall|k: int|
            0 <= k < entries.len() ==> #[trigger] results[k] == Ok::<Seq<char>, Seq<char>>(
                decode_utf8(entries[k].word),
            ),
        results.last() == Err::<Seq<char>, Seq<char>>(
            "Unexpected End-of-File reached while decoding header"@,
        ),
    decreases entries.len(),
{
    let all = played(records.first(), records.last());
    lemma_calls_follow(records, results);
    assert(token_read(records[0], records[1], results[0]));
    if entries.len() == 0 {
        let none: Tape = Seq::empty();
        assert(text_of(entries) + tail =~= tail);
        lemma_blanks_played(tail, false, all);
        assert(all + none =~= all);
        assert(read_token(all + none) is Done || read_token(all + none) is Failed);
    } else {
        let first = entries.first();
        let others = entries.drop_first();
        let text = text_of(entries) + tail;
        let len = first.bytes().len() as int;
        let used = played(records[0], records[1]);
        let later = played(records[1], records.last());
        let whole = played_out(all, text);
        assert(entries[0].wf());
        assert forall|i: int| 0 <= i < others.len() implies (#[trigger] others[i]).wf() by {
            assert(entries[i + 1].wf());
        }
        lemma_calls_follow(records.drop_first(), results.drop_first());
        lemma_since_joins(records[0], records[1], records.last());
        lemma_played_out(all, text, len);
        assert(text.take(len) =~= first.bytes());
        lemma_spaced_read(first, whole.skip(len));
        assert(whole =~= used + whole.skip(used.len() as int));
        assert(read_token(used + whole.skip(used.len() as int)) == read_token(whole));
        lemma_same_rest(whole, used.len() as int, len);
        assert(results[0] == Ok::<Seq<char>, Seq<char>>(decode_utf8(first.word)));
        assert forall|i: int| 0 <= i < later.len() implies if i < (text_of(others) + tail).len() {
            #[trigger] later[i] == Ok::<u8, nat>((text_of(others) + tail)[i])
        } else {
            later[i] is Err
        } by {
            assert(later[i] == all[i + len]);
            assert(i < (text_of(others) + tail).len() ==> (text_of(others) + tail)[i]
                == text[i + len]);
        }
        calls_give_tokens_in_order(others, tail, records.drop_first(), results.drop_first());
        assert forall|k: int| 0 <= k < entries.len() implies #[trigger] results[k] == Ok::<
            Seq<char>,
            Seq<char>,
        >(decode_utf8(entries[k].word)) by {
            if k > 0 {
                assert(results[k] == results.drop_first()[k - 1]);
                assert(entries[k] == others[k - 1]);
            }
        }
    }
}

/// The bytes of a line without carriage returns.
pub open spec fn without_returns(line: Seq<u8>) -> Seq<u8>
    decreases line.len(),
{
    if line.len() == 0 {
        Seq::empty()
    } else if line[0] == 13 {
        without_returns(line.skip(1))
    } else {
        seq![line[0]] + without_returns(line.skip(1))
    }
}

/// Whether a line does not end before its end.
pub open spec fn single_line(line: Seq<u8>) -> bool {
    forall|i: int| 0 <= i < line.len() ==> #[trigger] line[i] != 10
}

/// A line and its end as they come in.
pub open spec fn line_tape(line: Seq<u8>) -> Tape {
    delivered(line).push(Ok::<u8, nat>(10))
}

/// The words of a line.
pub open spec fn line_words(line: Seq<u8>) -> Seq<Seq<char>> {
    words(line_text(without_returns(line)))
}

proof fn lemma_line_scanned(so_far: Seq<u8>, line: Seq<u8>, rest: Tape)
    requires
        single_line(line),
    ensures
        scan_line(so_far, line_tape(line) + rest) == (Outcome::Done {
            value: so_far + without_returns(line),
            rest,
        }),
    decreases line.len(),
{
    let tape = line_tape(line) + rest;
    if line.len() == 0 {
        assert(tape[0] == Ok::<u8, nat>(10));
        assert(tape.skip(1) =~= rest);
        assert(so_far + without_returns(line) =~= so_far);
    } else {
        let c = line[0];
        let fewer = line.skip(1);
        assert(tape[0] == Ok::<u8, nat>(c));
        assert(tape.skip(1) =~= line_tape(fewer) + rest);
        assert forall|i: int| 0 <= i < fewer.len() implies #[trigger] fewer[i] != 10 by {
            assert(line[i + 1] != 10);
        }
        if c == 13 {
            lemma_line_scanned(so_far, fewer, rest);
        } else {
            lemma_line_scanned(so_far.push(c), fewer, rest);
            assert(so_far.push(c) + without_returns(fewer) =~= so_far + without_returns(line));
        }
    }
}

/// What a line of a PAM header does rests on its words alone.
pub proof fn pam_line_is_its_words(header: Header, line: Seq<u8>, rest: Tape)
    requires
        single_line(line),
    ensures
        pam_lines(header, line_tape(line) + rest) == (match pam_field(header, line_words(line)) {
            Field::Keep(next) => pam_lines(next, rest),
            Field::End => Outcome::Done { value: header, rest },
            Field::Bad(message) => Outcome::Failed { message, rest },
        }),
{
    lemma_line_scanned(Seq::empty(), line, rest);
    assert(Seq::<u8>::empty() + without_returns(line) =~= without_returns(line));
}

/// Carriage returns do not matter, wherever they stand in a PAM header: lines that differ in
/// them alone do the same.
pub proof fn returns_do_not_matter(header: Header, a: Seq<u8>, b: Seq<u8>, rest: Tape)
    requires
        single_line(a),
        single_line(b),
        without_returns(a) == without_returns(b),
    ensures
        pam_lines(header, line_tape(a) + rest) == pam_lines(header, line_tape(b) + rest),
{
    pam_line_is_its_words(header, a, rest);
    pam_line_is_its_words(header, b, rest);
}

/// A line ending of a carriage return and a line feed is as good as a line feed.
pub proof fn return_before_line_end(line: Seq<u8>)
    requires
        single_line(line),
    ensures
        single_line(line.push(13)),
        without_returns(line.push(13)) == without_returns(line),
    decreases line.len(),
{
    let longer = line.push(13);
    if line.len() == 0 {
        assert(longer.skip(1) =~= line);
    } else {
        let fewer = line.skip(1);
        assert forall|i: int| 0 <= i < fewer.len() implies #[trigger] fewer[i] != 10 by {
            assert(line[i + 1] != 10);
        }
        return_before_line_end(fewer);
        assert(longer.skip(1) =~= fewer.push(13));
    }
}

/// Whether the first word of a line has a meaning in a PAM header.
pub open spec fn has_meaning(parts: Seq<Seq<char>>) -> bool {
    parts.len() > 0 && {
        ||| parts[0] == "WIDTH"@
        ||| parts[0] == "HEIGHT"@
        ||| parts[0] == "DEPTH"@
        ||| parts[0] == "MAXVAL"@
        ||| parts[0] == "TUPLTYPE"@
        ||| parts[0] == "ENDHDR"@
    }
}

/// Blank lines and lines that start with an unknown word change nothing.
pub proof fn meaningless_line_is_skipped(header: Header, line: Seq<u8>, rest: Tape)
    requires
        single_line(line),
        !has_meaning(line_words(line)),
    ensures
        pam_lines(header, line_tape(line) + rest) == pam_lines(header, rest),
{
    pam_line_is_its_words(header, line, rest);
}

/// Whether a line of a PAM header is right and does not end the header.
pub open spec fn keeps(line: Seq<u8>) -> bool {
    &&& single_line(line)
    &&& forall|header: Header| #[trigger] pam_field(header, line_words(line)) is Keep
}

/// Some lines and their ends as they come in.
pub open spec fn lines_tape(lines: Seq<Seq<u8>>) -> Tape
    decreases lines.len(),
{
    if lines.len() == 0 {
        Seq::empty()
    } else {
        line_tape(lines.first()) + lines_tape(lines.drop_first())
    }
}

/// Whether two lines start with different words, or one has none.
pub open spec fn apart(a: Seq<u8>, b: Seq<u8>) -> bool {
    let x = line_words(a);
    let y = line_words(b);
    x.len() == 0 || y.len() == 0 || x[0] != y[0]
}

/// Whether all lines are right, and no two start with the same word.
pub open spec fn independent(lines: Seq<Seq<u8>>) -> bool {
    &&& forall|i: int| 0 <= i < lines.len() ==> keeps(#[trigger] lines[i])
    &&& forall|i: int, j: int|
        0 <= i < j < lines.len() ==> apart(#[trigger] lines[i], #[trigger] lines[j])
}

/// The order of the lines of a PAM header does not matter: the same lines in another order
/// give the same header, as long as no two start with the same word.
pub proof fn line_order_does_not_matter(
    header: Header,
    a: Seq<Seq<u8>>,
    b: Seq<Seq<u8>>,
    rest: Tape,
)
    requires
        independent(a),
        independent(b),
        a.to_multiset() == b.to_multiset(),
    ensures
        pam_lines(header, lines_tape(a) + rest) == pam_lines(header, lines_tape(b) + rest),
    decreases a.len(),
{
    a.to_multiset_ensures();
    b.to_multiset_ensures();
    if a.len() > 0 {
        let first = a[0];
        assert(keeps(first));
        assert(a.contains(first));
        assert(a.to_multiset().count(first) > 0);
        assert(b.contains(first));
        let at = choose|at: int| 0 <= at < b.len() && b[at] == first;
        let moved = seq![first] + b.remove(at);
        assert forall|i: int| 0 <= i < at implies apart(#[trigger] b[i], b[at]) by {}
        lemma_line_moves_first(header, b, at, rest);
        lemma_lines_split(a, rest);
        lemma_lines_split(moved, rest);
        assert(moved.drop_first() =~= b.remove(at));
        assert(a.drop_first() =~= a.remove(0));
        lemma_independent_rest(a, 0);
        lemma_independent_rest(b, at);
        pam_line_is_its_words(header, first, lines_tape(a.remove(0)) + rest);
        pam_line_is_its_words(header, first, lines_tape(b.remove(at)) + rest);
        assert(pam_field(header, line_words(first)) is Keep);
        if let Field::Keep(next) = pam_field(header, line_words(first)) {
            line_order_does_not_matter(next, a.remove(0), b.remove(at), rest);
        }
    }
}

proof fn lemma_independent_rest(lines: Seq<Seq<u8>>, at: int)
    requires
        independent(lines),
        0 <= at < lines.len(),
    ensures
        independent(lines.remove(at)),
{
    let others = lines.remove(at);
    assert forall|i: int| 0 <= i < others.len() implies keeps(#[trigger] others[i]) by {
        assert(keeps(lines[if i < at { i } else { i + 1 }]));
    }
    assert forall|i: int, j: int| 0 <= i < j < others.len() implies apart(
        #[trigger] others[i],
        #[trigger] others[j],
    ) by {
        let k = if i < at { i } else { i + 1 };
        let l = if j < at { j } else { j + 1 };
        assert(apart(lines[k], lines[l]));
    }
}

/// A line may move to the front.
proof fn lemma_line_moves_first(header: Header, lines: Seq<Seq<u8>>, at: int, rest: Tape)
    requires
        forall|i: int| 0 <= i < lines.len() ==> keeps(#[trigger] lines[i]),
        0 <= at < lines.len(),
        forall|i: int| 0 <= i < at ==> apart(#[trigger] lines[i], lines[at]),
    ensures
        pam_lines(header, lines_tape(lines) + rest) == pam_lines(
            header,
            lines_tape(seq![lines[at]] + lines.remove(at)) + rest,
        ),
    decreases at,
{
    if at == 0 {
        assert(seq![lines[at]] + lines.remove(at) =~= lines);
    } else {
        let swapped = lines.update(at - 1, lines[at]).update(at, lines[at - 1]);
        assert(apart(lines[at - 1], lines[at]));
        lemma_neighbours_swap(header, lines, at - 1, rest);
        assert forall|i: int| 0 <= i < swapped.len() implies keeps(#[trigger] swapped[i]) by {
            assert(keeps(lines[i]) && keeps(lines[at]) && keeps(lines[at - 1]));
        }
        assert forall|i: int| 0 <= i < at - 1 implies apart(
            #[trigger] swapped[i],
            swapped[at - 1],
        ) by {
            assert(apart(lines[i], lines[at]));
        }
        lemma_line_moves_first(header, swapped, at - 1, rest);
        assert(swapped.remove(at - 1) =~= lines.remove(at));
    }
}

/// Two neighbouring lines may change places.
proof fn lemma_neighbours_swap(header: Header, lines: Seq<Seq<u8>>, at: int, rest: Tape)
    requires
        forall|i: int| 0 <= i < lines.len() ==> keeps(#[trigger] lines[i]),
        0 <= at < lines.len() - 1,
        apart(lines[at], lines[at + 1]),
    ensures
        pam_lines(header, lines_tape(lines) + rest) == pam_lines(
            header,
            lines_tape(lines.update(at, lines[at + 1]).update(at + 1, lines[at])) + rest,
        ),
    decreases at,
{
    let swapped = lines.update(at, lines[at + 1]).update(at + 1, lines[at]);
    let first = lines[0];
    assert(keeps(first));
    lemma_lines_split(lines, rest);
    lemma_lines_split(swapped, rest);
    if at == 0 {
        let second = lines[1];
        assert(keeps(second));
        let after = lines_tape(lines.drop_first().drop_first()) + rest;
        lemma_lines_split(lines.drop_first(), rest);
        lemma_lines_split(swapped.drop_first(), rest);
        assert(swapped.drop_first().drop_first() =~= lines.drop_first().drop_first());
        lemma_pair_swaps(header, first, second, after);
    } else {
        let others = lines.drop_first();
        assert forall|i: int| 0 <= i < others.len() implies keeps(#[trigger] others[i]) by {
            assert(keeps(lines[i + 1]));
        }
        let moved = others.update(at - 1, others[at]).update(at, others[at - 1]);
        assert(swapped.drop_first() =~= moved);
        pam_line_is_its_words(header, first, lines_tape(others) + rest);
        pam_line_is_its_words(header, first, lines_tape(moved) + rest);
        assert(pam_field(header, line_words(first)) is Keep);
        if let Field::Keep(next) = pam_field(header, line_words(first)) {
            lemma_neighbours_swap(next, others, at - 1, rest);
        }
    }
}

proof fn lemma_lines_split(lines: Seq<Seq<u8>>, rest: Tape)
    requires
        lines.len() > 0,
    ensures
        lines_tape(lines) + rest == line_tape(lines[0]) + (lines_tape(lines.drop_first()) + rest),
{
    assert(lines_tape(lines) + rest =~= line_tape(lines[0]) + (lines_tape(lines.drop_first())
        + rest));
}

proof fn lemma_pair_swaps(header: Header, a: Seq<u8>, b: Seq<u8>, rest: Tape)
    requires
        keeps(a),
        keeps(b),
        apart(a, b),
    ensures
        pam_lines(header, line_tape(a) + (line_tape(b) + rest)) == pam_lines(
            header,
            line_tape(b) + (line_tape(a) + rest),
        ),
{
    let x = line_words(a);
    let y = line_words(b);
    assert(pam_field(header, x) is Keep);
    assert(pam_field(header, y) is Keep);
    pam_line_is_its_words(header, a, line_tape(b) + rest);
    pam_line_is_its_words(header, b, line_tape(a) + rest);
    if let (Field::Keep(after_a), Field::Keep(after_b)) = (
        pam_field(header, x),
        pam_field(header, y),
    ) {
        assert(pam_field(after_a, y) is Keep);
        assert(pam_field(after_b, x) is Keep);
        pam_line_is_its_words(after_a, b, rest);
        pam_line_is_its_words(after_b, a, rest);
        lemma_fields_commute(header, x, y);
    }
}

proof fn lemma_fields_commute(header: Header, x: Seq<Seq<char>>, y: Seq<Seq<char>>)
    requires
        x.len() == 0 || y.len() == 0 || x[0] != y[0],
        pam_field(header, x) is Keep,
        pam_field(header, y) is Keep,
    ensures
        pam_field(pam_field(header, x)->Keep_0, y) == pam_field(
            pam_field(header, y)->Keep_0,
            x,
        ),
{
}

/// The lines that have a meaning, without carriage returns.
pub open spec fn meaningful(lines: Seq<Seq<u8>>) -> Seq<Seq<u8>>
    decreases lines.len(),
{
    if lines.len() == 0 {
        Seq::empty()
    } else if has_meaning(line_words(lines.first())) {
        seq![without_returns(lines.first())] + meaningful(lines.drop_first())
    } else {
        meaningful(lines.drop_first())
    }
}

/// A header after some lines that keep it going.
spec fn applied(header: Header, lines: Seq<Seq<u8>>) -> Header
    decreases lines.len(),
{
    if lines.len() == 0 {
        header
    } else {
        match pam_field(header, line_words(lines.first())) {
            Field::Keep(next) => applied(next, lines.drop_first()),
            _ => header,
        }
    }
}

proof fn lemma_applied(header: Header, lines: Seq<Seq<u8>>, rest: Tape)
    requires
        forall|i: int| 0 <= i < lines.len() ==> keeps(#[trigger] lines[i]),
    ensures
        pam_lines(header, lines_tape(lines) + rest) == pam_lines(applied(header, lines), rest),
    decreases lines.len(),
{
    if lines.len() == 0 {
        assert(lines_tape(lines) + rest =~= rest);
    } else {
        let others = lines.drop_first();
        assert(keeps(lines[0]));
        assert forall|i: int| 0 <= i < others.len() implies keeps(#[trigger] others[i]) by {
            assert(keeps(lines[i + 1]));
        }
        lemma_lines_split(lines, rest);
        pam_line_is_its_words(header, lines[0], lines_tape(others) + rest);
        assert(pam_field(header, line_words(lines[0])) is Keep);
        if let Field::Keep(next) = pam_field(header, line_words(lines[0])) {
            lemma_applied(next, others, rest);
        }
    }
}

/// Without carriage returns a line is a line with the same words.
proof fn lemma_without_returns(line: Seq<u8>)
    requires
        single_line(line),
    ensures
        single_line(without_returns(line)),
        without_returns(without_returns(line)) == without_returns(line),
        line_words(without_returns(line)) == line_words(line),
    decreases line.len(),
{
    if line.len() > 0 {
        let fewer = line.skip(1);
        assert forall|i: int| 0 <= i < fewer.len() implies #[trigger] fewer[i] != 10 by {
            assert(line[i + 1] != 10);
        }
        lemma_without_returns(fewer);
        if line[0] != 13 {
            let clean = without_returns(line);
            assert(line[0] != 10);
            assert(clean.skip(1) =~= without_returns(fewer));
            assert forall|i: int| 0 <= i < clean.len() implies #[trigger] clean[i] != 10 by {
                if i > 0 {
                    assert(clean[i] == without_returns(fewer)[i - 1]);
                }
            }
        }
    }
}

proof fn lemma_meaningful(header: Header, lines: Seq<Seq<u8>>)
    requires
        forall|i: int| 0 <= i < lines.len() ==> keeps(#[trigger] lines[i]),
    ensures
        forall|i: int|
            0 <= i < meaningful(lines).len() ==> keeps(#[trigger] meaningful(lines)[i]),
        applied(header, meaningful(lines)) == applied(header, lines),
    decreases lines.len(),
{
    if lines.len() > 0 {
        let first = lines[0];
        let others = lines.drop_first();
        let clean = without_returns(first);
        assert(keeps(first));
        assert forall|i: int| 0 <= i < others.len() implies keeps(#[trigger] others[i]) by {
            assert(keeps(lines[i + 1]));
        }
        lemma_without_returns(first);
        assert(pam_field(header, line_words(first)) is Keep);
        if let Field::Keep(next) = pam_field(header, line_words(first)) {
            lemma_meaningful(next, others);
        }
        if has_meaning(line_words(first)) {
            let all = meaningful(lines);
            assert(all.drop_first() =~= meaningful(others));
            assert(keeps(clean));
            assert forall|i: int| 0 <= i < all.len() implies keeps(#[trigger] all[i]) by {
                if i > 0 {
                    assert(all[i] == meaningful(others)[i - 1]);
                }
            }
        }
    }
}

/// Whether a line ends a PAM header.
pub open spec fn ends(line: Seq<u8>) -> bool {
    &&& single_line(line)
    &&& forall|header: Header| #[trigger] pam_field(header, line_words(line)) is End
}

/// The bytes of some lines and their ends.
pub open spec fn lines_bytes(lines: Seq<Seq<u8>>) -> Seq<u8>
    decreases lines.len(),
{
    if lines.len() == 0 {
        Seq::empty()
    } else {
        lines.first().push(10) + lines_bytes(lines.drop_first())
    }
}

proof fn lemma_lines_bytes(lines: Seq<Seq<u8>>)
    ensures
        delivered(lines_bytes(lines)) == lines_tape(lines),
    decreases lines.len(),
{
    if lines.len() == 0 {
        assert(delivered(lines_bytes(lines)) =~= lines_tape(lines));
    } else {
        lemma_lines_bytes(lines.drop_first());
        assert(delivered(lines.first().push(10)) =~= line_tape(lines.first()));
        lemma_delivered_joins(
            lines.first().push(10),
            lines_bytes(lines.drop_first()),
            Seq::empty(),
        );
    }
}

/// The bytes of a PAM file up to the end of its header. The first line starts right after the
/// signature.
pub open spec fn pam_bytes(lines: Seq<Seq<u8>>, end: Seq<u8>) -> Seq<u8> {
    seq![80u8, 55u8] + lines_bytes(lines.push(end))
}

/// The header of a PAM file.
proof fn lemma_pam_header(lines: Seq<Seq<u8>>, end: Seq<u8>, rest: Tape)
    requires
        forall|i: int| 0 <= i < lines.len() ==> keeps(#[trigger] lines[i]),
        ends(end),
    ensures
        read_header(delivered(pam_bytes(lines, end)) + rest) == (Outcome::Done {
            value: applied(fresh_header(Format::Pam), lines),
            rest,
        }),
{
    let fresh = fresh_header(Format::Pam);
    let tape = delivered(pam_bytes(lines, end)) + rest;
    let after = line_tape(end) + rest;
    lemma_lines_bytes(lines.push(end));
    lemma_last_line(lines, end);
    lemma_delivered_joins(seq![80u8, 55u8], lines_bytes(lines.push(end)), rest);
    assert(lines_tape(lines) + line_tape(end) + rest =~= lines_tape(lines) + after);
    assert(tape[0] == Ok::<u8, nat>(80));
    assert(tape[1] == Ok::<u8, nat>(55));
    assert(tape.skip(2) =~= lines_tape(lines) + after);
    lemma_applied(fresh, lines, after);
    pam_line_is_its_words(applied(fresh, lines), end, rest);
    assert(pam_field(applied(fresh, lines), line_words(end)) is End);
}

proof fn lemma_last_line(lines: Seq<Seq<u8>>, end: Seq<u8>)
    ensures
        lines_tape(lines.push(end)) == lines_tape(lines) + line_tape(end),
    decreases lines.len(),
{
    let all = lines.push(end);
    if lines.len() == 0 {
        assert(all.drop_first() =~= Seq::<Seq<u8>>::empty());
        assert(lines_tape(all.drop_first()) =~= Seq::empty());
        assert(lines_tape(lines) =~= Seq::empty());
        assert(lines_tape(all) =~= lines_tape(lines) + line_tape(end));
    } else {
        assert(all.drop_first() =~= lines.drop_first().push(end));
        lemma_last_line(lines.drop_first(), end);
        assert(lines_tape(all) =~= lines_tape(lines) + line_tape(end));
    }
}

proof fn lemma_line_followed(line: Seq<u8>, tape: Tape, more: Tape)
    requires
        !(scan_line(line, tape) is More),
    ensures
        scan_line(line, tape + more) == followed(scan_line(line, tape), more),
    decreases tape.len(),
{
    let whole = tape + more;
    let rest = tape.skip(1);
    assert(whole[0] == tape[0]);
    assert(whole.skip(1) =~= rest + more);
    if let Ok(c) = tape[0] {
        if c == 13 {
            lemma_line_followed(line, rest, more);
        } else if c != 10 {
            lemma_line_followed(line.push(c), rest, more);
        }
    }
}

proof fn lemma_lines_followed(header: Header, tape: Tape, more: Tape)
    requires
        !(pam_lines(header, tape) is More),
    ensures
        pam_lines(header, tape + more) == followed(pam_lines(header, tape), more),
    decreases tape.len(),
{
    lemma_line_followed(Seq::empty(), tape, more);
    if let Outcome::Done { value, rest } = scan_line(Seq::empty(), tape) {
        if let Field::Keep(next) = pam_field(header, words(line_text(value))) {
            lemma_lines_followed(next, rest, more);
        }
    }
}

/// What follows a header does not change it.
pub proof fn header_is_settled(tape: Tape, more: Tape)
    requires
        !(read_header(tape) is More),
    ensures
        read_header(tape + more) == followed(read_header(tape), more),
{
    let whole = tape + more;
    assert(whole[0] == tape[0]);
    if tape[0] is Err {
        assert(whole.skip(1) =~= tape.skip(1) + more);
    } else {
        let rest = tape.skip(2);
        assert(whole[1] == tape[1]);
        assert(whole.skip(2) =~= rest + more);
        if tape[0]->Ok_0 == 80 && tape[1]->Ok_0 == 55 {
            lemma_lines_followed(fresh_header(Format::Pam), rest, more);
        } else if tape[0]->Ok_0 == 80 && (tape[1]->Ok_0 == 51 || tape[1]->Ok_0 == 54) {
            token_is_settled(rest, more);
            if let Outcome::Done { value: width, rest: second } = read_token(rest) {
                token_is_settled(second, more);
                if let Outcome::Done { value: height, rest: third } = read_token(second) {
                    token_is_settled(third, more);
                }
            }
        }
    }
}

/// The source after its header was read, or after the header turned out too large.
pub open spec fn reader_after<R>(result: Result<PpmPamDecoder<R>, HeaderError<R>>) -> History {
    match result {
        Ok(decoder) => decoder.reader@,
        Err(error) => error.reader@,
    }
}

/// What reading a PAM header from a source that holds it gives.
proof fn lemma_pam_result<R>(
    lines: Seq<Seq<u8>>,
    end: Seq<u8>,
    more: Seq<u8>,
    before: History,
    result: Result<PpmPamDecoder<R>, HeaderError<R>>,
)
    requires
        forall|i: int| 0 <= i < lines.len() ==> keeps(#[trigger] lines[i]),
        ends(end),
        header_result(before, result),
        plays(played(before, reader_after(result)), pam_bytes(lines, end) + more),
        played(before, reader_after(result)).len() < u64::MAX,
    ensures
        ({
            let header = applied(fresh_header(Format::Pam), lines);
            &&& played(before, reader_after(result)) == delivered(pam_bytes(lines, end))
            &&& match result {
                Ok(decoder) => decoder.metadata@ == header && decoder.bytes_per_row
                    == header.row_bytes() && decoder.current_row == 0,
                Err(error) => error.failure is Overflow && header.row_bytes() > usize::MAX,
            }
        }),
{
    let used = played(before, reader_after(result));
    let bytes = pam_bytes(lines, end);
    let len = bytes.len() as int;
    let text = bytes + more;
    let whole = played_out(used, text);
    lemma_played_out(used, text, len);
    assert(text.take(len) =~= bytes);
    lemma_pam_header(lines, end, whole.skip(len));
    let after = whole.skip(used.len() as int);
    assert(whole =~= used + after);
    header_is_settled(used, after);
    assert(Seq::empty() + after =~= after);
    lemma_same_rest(whole, used.len() as int, len);
    assert(used =~= delivered(bytes));
}

/// PAM files whose lines differ in order, in lines without meaning and in carriage returns
/// alone are read alike: both headers are read, with equal metadata and rows of equal length,
/// up to the end of their last lines, or the rows of both are too long for this machine.
///
/// No two lines with a meaning may start with the same word, and fewer than 2^64 - 1 bytes may
/// be read.
pub proof fn pam_files_are_read_alike<R>(
    a: Seq<Seq<u8>>,
    b: Seq<Seq<u8>>,
    end_a: Seq<u8>,
    end_b: Seq<u8>,
    more_a: Seq<u8>,
    more_b: Seq<u8>,
    before_a: History,
    before_b: History,
    result_a: Result<PpmPamDecoder<R>, HeaderError<R>>,
    result_b: Result<PpmPamDecoder<R>, HeaderError<R>>,
)
    requires
        forall|i: int| 0 <= i < a.len() ==> keeps(#[trigger] a[i]),
        forall|i: int| 0 <= i < b.len() ==> keeps(#[trigger] b[i]),
        independent(meaningful(a)),
        independent(meaningful(b)),
        meaningful(a).to_multiset() == meaningful(b).to_multiset(),
        ends(end_a),
        ends(end_b),
        header_result(before_a, result_a),
        header_result(before_b, result_b),
        plays(played(before_a, reader_after(result_a)), pam_bytes(a, end_a) + more_a),
        plays(played(before_b, reader_after(result_b)), pam_bytes(b, end_b) + more_b),
        played(before_a, reader_after(result_a)).len() < u64::MAX,
        played(before_b, reader_after(result_b)).len() < u64::MAX,
    ensures
        played(before_a, reader_after(result_a)) == delivered(pam_bytes(a, end_a)),
        played(before_b, reader_after(result_b)) == delivered(pam_bytes(b, end_b)),
        match (result_a, result_b) {
            (Ok(x), Ok(y)) => {
                &&& x.metadata@ == y.metadata@
                &&& x.bytes_per_row == y.bytes_per_row
                &&& x.current_row == y.current_row
            },
            (Err(x), Err(y)) => x.failure is Overflow && y.failure is Overflow,
            _ => false,
        },
{
    let fresh = fresh_header(Format::Pam);
    let none: Tape = Seq::empty();
    let end = line_tape(end_a) + none;
    lemma_pam_result(a, end_a, more_a, before_a, result_a);
    lemma_pam_result(b, end_b, more_b, before_b, result_b);
    lemma_meaningful(fresh, a);
    lemma_meaningful(fresh, b);
    line_order_does_not_matter(fresh, meaningful(a), meaningful(b), end);
    lemma_applied(fresh, meaningful(a), end);
    lemma_applied(fresh, meaningful(b), end);
    pam_line_is_its_words(applied(fresh, a), end_a, none);
    pam_line_is_its_words(applied(fresh, b), end_a, none);
    assert(pam_field(applied(fresh, a), line_words(end_a)) is End);
    assert(pam_field(applied(fresh, b), line_words(end_a)) is End);
}

/// Space, tab, line feed, form feed and carriage return separate tokens, and no other byte does.
pub proof fn five_bytes_separate(c: u8)
    ensures
        separates(c) <==> c == 9 || c == 10 || c == 12 || c == 13 || c == 32,
{
}

/// Whether a word is made of bytes that neither separate tokens nor start a comment.
pub open spec fn plain(word: Seq<u8>) -> bool {
    forall|i: int| 0 <= i < word.len() ==> !separates(#[trigger] word[i]) && word[i] != 35
}

proof fn lemma_plain_scanned(token: Seq<u8>, word: Seq<u8>, rest: Tape)
    requires
        plain(word),
    ensures
        scan_token(token, false, delivered(word) + rest) == scan_token(token + word, false, rest),
    decreases word.len(),
{
    lemma_delivered(word, rest);
    if word.len() == 0 {
        assert(token + word =~= token);
    } else {
        let fewer = word.skip(1);
        assert(!separates(word[0]) && word[0] != 35);
        assert forall|i: int| 0 <= i < fewer.len() implies !separates(#[trigger] fewer[i])
            && fewer[i] != 35 by {
            assert(!separates(word[i + 1]));
        }
        lemma_plain_scanned(token.push(word[0]), fewer, rest);
        assert(token.push(word[0]) + fewer =~= token + word);
    }
}

proof fn lemma_comment_scanned(token: Seq<u8>, comment: Seq<u8>, end: u8, rest: Tape)
    requires
        forall|i: int| 0 <= i < comment.len() ==> #[trigger] comment[i] != 10 && comment[i] != 13,
        end == 10 || end == 13,
    ensures
        scan_token(token, true, delivered(comment) + (seq![Ok::<u8, nat>(end)] + rest))
            == scan_token(token, false, rest),
    decreases comment.len(),
{
    let after = seq![Ok::<u8, nat>(end)] + rest;
    lemma_delivered(comment, after);
    if comment.len() == 0 {
        assert(after.skip(1) =~= rest);
    } else {
        assert(comment[0] != 10 && comment[0] != 13);
        assert forall|i: int| 0 <= i < comment.skip(1).len() implies #[trigger] comment.skip(1)[i]
            != 10 && comment.skip(1)[i] != 13 by {
            assert(comment[i + 1] != 10);
        }
        lemma_comment_scanned(token, comment.skip(1), end, rest);
    }
}

/// A comment inside a word does not end it: what stands before the `#` and what stands after the
/// end of that line, which a line feed or a carriage return makes, are one token.
pub proof fn comments_do_not_break_words(
    before: Seq<u8>,
    a: Seq<u8>,
    comment: Seq<u8>,
    line_end: u8,
    b: Seq<u8>,
    end: u8,
    rest: Tape,
)
    requires
        blank(before, false),
        a.len() > 0,
        plain(a),
        plain(b),
        valid_utf8(a + b),
        forall|i: int| 0 <= i < comment.len() ==> #[trigger] comment[i] != 10 && comment[i] != 13,
        line_end == 10 || line_end == 13,
        separates(end),
    ensures
        read_token(
            delivered(before + a + seq![35u8] + comment + seq![line_end] + b + seq![end]) + rest,
        ) == (Outcome::Done { value: decode_utf8(a + b), rest }),
{
    let last = seq![Ok::<u8, nat>(end)] + rest;
    let tail = delivered(b) + last;
    let middle = delivered(comment) + (seq![Ok::<u8, nat>(line_end)] + tail);
    let hash = seq![Ok::<u8, nat>(35)] + middle;
    let whole = delivered(before + a + seq![35u8] + comment + seq![line_end] + b + seq![end])
        + rest;
    assert(whole =~= delivered(before) + (delivered(a) + hash));
    lemma_blank_skipped(before, false, delivered(a) + hash);
    lemma_plain_scanned(Seq::empty(), a, hash);
    assert(Seq::<u8>::empty() + a =~= a);
    assert(hash[0] == Ok::<u8, nat>(35));
    assert(hash.skip(1) =~= middle);
    assert(scan_token(a, false, hash) == scan_token(a, true, middle));
    lemma_comment_scanned(a, comment, line_end, tail);
    lemma_word_scanned(a, b, end, rest);
}

/// A word that the source ends with is a token like any other.
pub proof fn word_at_the_end_is_read(before: Seq<u8>, word: Seq<u8>, rest: Tape)
    requires
        blank(before, false),
        word.len() > 0,
        plain(word),
        valid_utf8(word),
    ensures
        read_token(ending(before + word, rest)) == (Outcome::Done {
            value: decode_utf8(word),
            rest,
        }),
{
    let after = seq![Err::<u8, nat>(1)] + rest;
    lemma_delivered_joins(before, word, after);
    lemma_blank_skipped(before, false, delivered(word) + after);
    lemma_plain_scanned(Seq::empty(), word, after);
    assert(Seq::<u8>::empty() + word =~= word);
    assert(after[0] == Err::<u8, nat>(1));
    assert(after.skip(1) =~= rest);
}

/// A word that is no text is reported, and has then been read.
pub proof fn words_must_be_text(before: Seq<u8>, word: Seq<u8>, end: u8, rest: Tape)
    requires
        blank(before, false),
        word.len() > 0,
        plain(word),
        !valid_utf8(word),
        separates(end),
    ensures
        read_token(delivered(before + word + seq![end]) + rest) == (Outcome::<Seq<char>>::Failed {
            message: "Header encoding is not valid UTF-8"@,
            rest,
        }),
{
    let after = seq![Ok::<u8, nat>(end)] + rest;
    lemma_delivered_joins(before + word, seq![end], rest);
    assert(delivered(seq![end]) =~= seq![Ok::<u8, nat>(end)]);
    lemma_delivered_joins(before, word, after);
    lemma_blank_skipped(before, false, delivered(word) + after);
    lemma_word_scanned(Seq::empty(), word, end, rest);
    assert(Seq::<u8>::empty() + word =~= word);
}

/// What each byte does to a token of which `token` was read, outside of comments: a separator
/// ends it, or is skipped where there is nothing of it yet; `#` starts a comment, which is as if
/// it were not there up to a line feed or a carriage return; and every other byte belongs to
/// the token.
pub proof fn bytes_of_a_token(token: Seq<u8>, c: u8, comment: Seq<u8>, line_end: u8, rest: Tape)
    requires
        forall|i: int| 0 <= i < comment.len() ==> #[trigger] comment[i] != 10 && comment[i] != 13,
        line_end == 10 || line_end == 13,
    ensures
        ({
            let next = scan_token(token, false, seq![Ok::<u8, nat>(c)] + rest);
            let blank = c == 9 || c == 10 || c == 12 || c == 13 || c == 32;
            &&& blank && token.len() > 0 ==> next == (Outcome::Done { value: token, rest })
            &&& blank && token.len() == 0 ==> next == scan_token(token, false, rest)
            &&& !blank && c != 35 ==> next == scan_token(token.push(c), false, rest)
        }),
        scan_token(token, false, delivered(seq![35u8] + comment + seq![line_end]) + rest)
            == scan_token(token, false, rest),
        scan_token(token, false, seq![Err::<u8, nat>(1)] + rest) == if token.len() > 0 {
            Outcome::Done { value: token, rest }
        } else {
            Outcome::Failed {
                message: "Unexpected End-of-File reached while decoding header"@,
                rest,
            }
        },
{
    let tape = seq![Ok::<u8, nat>(c)] + rest;
    assert(tape[0] == Ok::<u8, nat>(c));
    assert(tape.skip(1) =~= rest);
    let ended = seq![Err::<u8, nat>(1)] + rest;
    assert(ended[0] == Err::<u8, nat>(1));
    assert(ended.skip(1) =~= rest);
    let after = delivered(comment) + (seq![Ok::<u8, nat>(line_end)] + rest);
    let whole = delivered(seq![35u8] + comment + seq![line_end]) + rest;
    assert(whole[0] == Ok::<u8, nat>(35));
    assert(whole.skip(1) =~= after);
    lemma_comment_scanned(token, comment, line_end, rest);
}

proof fn lemma_line_goes_on(line: Seq<u8>, bytes: Seq<u8>, rest: Tape)
    requires
        single_line(bytes),
    ensures
        scan_line(line, ending(bytes, rest)) == (Outcome::<Seq<u8>>::Failed {
            message: "Abrupt EOF inside PAM header declarations"@,
            rest,
        }),
    decreases bytes.len(),
{
    let after = seq![Err::<u8, nat>(1)] + rest;
    lemma_delivered(bytes, after);
    if bytes.len() == 0 {
        assert(after[0] == Err::<u8, nat>(1));
        assert(after.skip(1) =~= rest);
    } else {
        let fewer = bytes.skip(1);
        assert(bytes[0] != 10);
        assert forall|i: int| 0 <= i < fewer.len() implies #[trigger] fewer[i] != 10 by {
            assert(bytes[i + 1] != 10);
        }
        if bytes[0] == 13 {
            lemma_line_goes_on(line, fewer, rest);
        } else {
            lemma_line_goes_on(line.push(bytes[0]), fewer, rest);
        }
    }
}

/// A PAM header whose source ends within a line is reported, whatever there is of the line.
pub proof fn header_lines_must_end(header: Header, bytes: Seq<u8>, rest: Tape)
    requires
        single_line(bytes),
    ensures
        pam_lines(header, ending(bytes, rest)) == (Outcome::<Header>::Failed {
            message: "Abrupt EOF inside PAM header declarations"@,
            rest,
        }),
{
    lemma_line_goes_on(Seq::empty(), bytes, rest);
}

/// A source that ends within a comment ends the token before it, if there is one.
pub proof fn comments_may_end_with_the_source(token: Seq<u8>, comment: Seq<u8>, rest: Tape)
    requires
        forall|i: int| 0 <= i < comment.len() ==> #[trigger] comment[i] != 10 && comment[i] != 13,
    ensures
        scan_token(token, true, ending(comment, rest)) == if token.len() > 0 {
            Outcome::Done { value: token, rest }
        } else {
            Outcome::Failed {
                message: "Unexpected End-of-File reached while decoding header"@,
                rest,
            }
        },
    decreases comment.len(),
{
    let after = seq![Err::<u8, nat>(1)] + rest;
    lemma_delivered(comment, after);
    if comment.len() == 0 {
        assert(after[0] == Err::<u8, nat>(1));
        assert(after.skip(1) =~= rest);
    } else {
        let fewer = comment.skip(1);
        assert(comment[0] != 10 && comment[0] != 13);
        assert forall|i: int| 0 <= i < fewer.len() implies #[trigger] fewer[i] != 10 && fewer[i]
            != 13 by {
            assert(comment[i + 1] != 10);
        }
        comments_may_end_with_the_source(token, fewer, rest);
    }
}

/// A token is the text of its bytes, and bytes that are no text are reported.
pub proof fn tokens_are_text(tape: Tape)
    ensures
        scan_token(Seq::empty(), false, tape) matches Outcome::Done { value, rest } ==> {
            &&& valid_utf8(value) ==> read_token(tape) == (Outcome::Done {
                value: decode_utf8(value),
                rest,
            })
            &&& !valid_utf8(value) ==> read_token(tape) == (Outcome::<Seq<char>>::Failed {
                message: "Header encoding is not valid UTF-8"@,
                rest,
            })
        },
        scan_token(Seq::empty(), false, tape) matches Outcome::Failed { message, rest }
            ==> read_token(tape) == (Outcome::<Seq<char>>::Failed { message, rest }),
{
}

} // verus!
