//! Image file headers that were written are read back.

use crate::channel::delivered;
use crate::format::{pixel_bytes, TngImageInfo};
use crate::plan::{
    info_for, largest_sample, pam_depth, pam_header_text, pam_tuple_type, ppm_header_text,
};
use crate::ppmpam::{
    fresh_header, named, pam_field, pam_lines, read_header, read_token, scan_line, scan_token,
    separates, Field, Format, Header, Outcome, Tape,
};
use crate::text::{
    decimal, decimal_reads_back, is_digit, line_text, white, white_len, word_len, words,
};
use vstd::prelude::*;
use vstd::utf8::{decode_utf8, encode_utf8, is_ascii_chars, valid_utf8};

verus! {

/// ASCII characters as bytes.
spec fn ascii(text: Seq<char>) -> Seq<u8> {
    Seq::new(text.len(), |i: int| text[i] as u8)
}

/// ASCII characters as they come in.
spec fn tape_of(text: Seq<char>) -> Tape {
    Seq::new(text.len(), |i: int| Ok::<u8, nat>(text[i] as u8))
}

proof fn lemma_ascii(text: Seq<char>)
    requires
        is_ascii_chars(text),
    ensures
        encode_utf8(text) == ascii(text),
        valid_utf8(ascii(text)),
        decode_utf8(ascii(text)) == text,
        delivered(encode_utf8(text)) == tape_of(text),
        line_text(ascii(text)) == text,
{
    vstd::utf8::is_ascii_chars_encode_utf8(text);
    assert(encode_utf8(text) =~= ascii(text));
    vstd::utf8::encode_utf8_valid_utf8(text);
    vstd::utf8::encode_utf8_decode_utf8(text);
    assert(delivered(encode_utf8(text)) =~= tape_of(text));
}

/// A token that starts with `token`, goes on with `digits` and ends with a separator.
proof fn lemma_scan_digits(token: Seq<u8>, digits: Seq<char>, end: u8, rest: Tape)
    requires
        forall|i: int| 0 <= i < digits.len() ==> is_digit(#[trigger] digits[i]),
        token.len() + digits.len() > 0,
        separates(end),
    ensures
        scan_token(token, false, tape_of(digits) + (seq![Ok::<u8, nat>(end)] + rest)) == (Outcome::Done {
            value: token + ascii(digits),
            rest,
        }),
    decreases digits.len(),
{
    let tape = tape_of(digits) + (seq![Ok::<u8, nat>(end)] + rest);
    if digits.len() == 0 {
        assert(tape[0] == Ok::<u8, nat>(end));
        assert(tape.skip(1) =~= rest);
        assert(token + ascii(digits) =~= token);
    } else {
        let c = digits[0] as u8;
        let fewer = digits.skip(1);
        assert(is_digit(digits[0]));
        assert(tape[0] == Ok::<u8, nat>(c));
        assert(tape.skip(1) =~= tape_of(fewer) + (seq![Ok::<u8, nat>(end)] + rest));
        assert forall|i: int| 0 <= i < fewer.len() implies is_digit(#[trigger] fewer[i]) by {
            assert(is_digit(digits[i + 1]));
        }
        lemma_scan_digits(token.push(c), fewer, end, rest);
        assert(token.push(c) + ascii(fewer) =~= token + ascii(digits));
    }
}

/// A number that was written is the next token.
proof fn lemma_read_number(n: nat, end: u8, rest: Tape)
    requires
        separates(end),
    ensures
        read_token(tape_of(decimal(n)) + (seq![Ok::<u8, nat>(end)] + rest)) == (Outcome::Done {
            value: decimal(n),
            rest,
        }),
{
    decimal_reads_back(n);
    let none = Seq::<u8>::empty();
    lemma_ascii_decimal(n);
    lemma_scan_digits(none, decimal(n), end, rest);
    lemma_ascii(decimal(n));
    assert(none + ascii(decimal(n)) =~= ascii(decimal(n)));
}

/// Separators before a token are skipped.
proof fn lemma_skip_separator(c: u8, tape: Tape)
    requires
        separates(c),
    ensures
        read_token(seq![Ok::<u8, nat>(c)] + tape) == read_token(tape),
{
    let whole = seq![Ok::<u8, nat>(c)] + tape;
    assert(whole[0] == Ok::<u8, nat>(c));
    assert(whole.skip(1) =~= tape);
}

proof fn lemma_ascii_decimal(n: nat)
    ensures
        is_ascii_chars(decimal(n)),
{
    decimal_reads_back(n);
    assert forall|i: int| 0 <= i < decimal(n).len() implies '\0' <= #[trigger] decimal(n)[i]
        <= '\u{7f}' by {
        assert(is_digit(decimal(n)[i]));
    }
}

proof fn lemma_ascii_concat(a: Seq<char>, b: Seq<char>)
    requires
        is_ascii_chars(a),
        is_ascii_chars(b),
    ensures
        is_ascii_chars(a + b),
        tape_of(a + b) == tape_of(a) + tape_of(b),
{
    assert forall|i: int| 0 <= i < (a + b).len() implies '\0' <= #[trigger] (a + b)[i]
        <= '\u{7f}' by {
        if i < a.len() {
            assert((a + b)[i] == a[i]);
        } else {
            assert((a + b)[i] == b[i - a.len()]);
        }
    }
    assert(tape_of(a + b) =~= tape_of(a) + tape_of(b));
}

/// The header of a PPM file from its second number on, as it comes in.
spec fn ppm_tape_end(info: TngImageInfo, rest: Tape) -> Tape {
    let third = tape_of(decimal(largest_sample(info.bit_depth) as nat)) + (seq![
        Ok::<u8, nat>(10u8),
    ] + rest);
    tape_of(decimal(info.height as nat)) + (seq![Ok::<u8, nat>(10u8)] + third)
}

/// The header of a PPM file as it comes in.
proof fn lemma_ppm_tape(info: TngImageInfo, rest: Tape)
    ensures
        ({
            let tape = delivered(encode_utf8(ppm_header_text(info))) + rest;
            let first = tape_of(decimal(info.width as nat)) + (seq![Ok::<u8, nat>(32u8)]
                + ppm_tape_end(info, rest));
            &&& tape.len() >= 2
            &&& tape[0] == Ok::<u8, nat>(80u8)
            &&& tape[1] == Ok::<u8, nat>(54u8)
            &&& tape.skip(2) == seq![Ok::<u8, nat>(10u8)] + first
        }),
{
    let w = decimal(info.width as nat);
    let h = decimal(info.height as nat);
    let m = decimal(largest_sample(info.bit_depth) as nat);
    let text = ppm_header_text(info);
    reveal_strlit("P6\n");
    reveal_strlit(" ");
    reveal_strlit("\n");
    lemma_ascii_decimal(info.width as nat);
    lemma_ascii_decimal(info.height as nat);
    lemma_ascii_decimal(largest_sample(info.bit_depth) as nat);
    assert(is_ascii_chars("P6\n"@) && is_ascii_chars(" "@) && is_ascii_chars("\n"@));
    lemma_ascii_concat("P6\n"@, w);
    lemma_ascii_concat("P6\n"@ + w, " "@);
    lemma_ascii_concat("P6\n"@ + w + " "@, h);
    lemma_ascii_concat("P6\n"@ + w + " "@ + h, "\n"@);
    lemma_ascii_concat("P6\n"@ + w + " "@ + h + "\n"@, m);
    lemma_ascii_concat("P6\n"@ + w + " "@ + h + "\n"@ + m, "\n"@);
    lemma_ascii(text);
    let end = ppm_tape_end(info, rest);
    let first = tape_of(w) + (seq![Ok::<u8, nat>(32u8)] + end);
    let tape = tape_of(text) + rest;
    assert(tape_of("P6\n"@) =~= seq![Ok::<u8, nat>(80u8), Ok::<u8, nat>(54u8), Ok::<u8, nat>(10u8)]);
    assert(tape_of(" "@) =~= seq![Ok::<u8, nat>(32u8)]);
    assert(tape_of("\n"@) =~= seq![Ok::<u8, nat>(10u8)]);
    assert(tape =~= seq![Ok::<u8, nat>(80u8), Ok::<u8, nat>(54u8)] + (seq![Ok::<u8, nat>(10u8)]
        + first));
    assert(tape.skip(2) =~= seq![Ok::<u8, nat>(10u8)] + first);
}

/// The header of a PPM file is read back, and what follows it is left over.
pub proof fn ppm_header_reads_back(info: TngImageInfo, rest: Tape)
    ensures
        read_header(delivered(encode_utf8(ppm_header_text(info))) + rest) == (Outcome::Done {
            value: Header {
                width: info.width,
                height: info.height,
                maxval: largest_sample(info.bit_depth),
                depth: 3,
                ..fresh_header(Format::PpmBinary)
            },
            rest,
        }),
{
    let end = ppm_tape_end(info, rest);
    let third = tape_of(decimal(largest_sample(info.bit_depth) as nat)) + (seq![
        Ok::<u8, nat>(10u8),
    ] + rest);
    lemma_ppm_tape(info, rest);
    lemma_skip_separator(
        10,
        tape_of(decimal(info.width as nat)) + (seq![Ok::<u8, nat>(32u8)] + end),
    );
    lemma_read_number(info.width as nat, 32, end);
    lemma_read_number(info.height as nat, 10, third);
    lemma_read_number(largest_sample(info.bit_depth) as nat, 10, rest);
    decimal_reads_back(info.width as nat);
    decimal_reads_back(info.height as nat);
    decimal_reads_back(largest_sample(info.bit_depth) as nat);
}

/// Whether a text is a word of ASCII characters.
spec fn plain_word(text: Seq<char>) -> bool {
    text.len() > 0 && is_ascii_chars(text) && forall|i: int|
        0 <= i < text.len() ==> !white(#[trigger] text[i])
}

proof fn lemma_word_len_is(text: Seq<char>, len: nat)
    requires
        len <= text.len(),
        forall|i: int| 0 <= i < len ==> !white(#[trigger] text[i]),
        len == text.len() || white(text[len as int]),
    ensures
        word_len(text) == len,
    decreases len,
{
    if len > 0 {
        let rest = text.skip(1);
        assert(!white(text[0]));
        assert forall|i: int| 0 <= i < len - 1 implies !white(#[trigger] rest[i]) by {
            assert(!white(text[i + 1]));
        }
        lemma_word_len_is(rest, (len - 1) as nat);
    }
}

/// A single word.
proof fn lemma_one_word(word: Seq<char>)
    requires
        plain_word(word),
    ensures
        words(word) == seq![word],
{
    assert(!white(word[0]));
    assert(word.skip(0) =~= word);
    lemma_word_len_is(word, word.len());
    assert(word.take(word.len() as int) =~= word);
    let after = word.skip(word.len() as int);
    assert(after.len() == 0);
    assert(words(after) =~= Seq::empty());
    assert(seq![word] + Seq::<Seq<char>>::empty() =~= seq![word]);
}

/// Two words with a space between them.
proof fn lemma_two_words(key: Seq<char>, value: Seq<char>)
    requires
        plain_word(key),
        plain_word(value),
    ensures
        words(key + seq![' '] + value) == seq![key, value],
{
    let text = key + seq![' '] + value;
    let len = key.len();
    assert(text[0] == key[0] && !white(key[0]));
    assert(text.skip(0) =~= text);
    assert forall|i: int| 0 <= i < len implies !white(#[trigger] text[i]) by {
        assert(text[i] == key[i]);
    }
    assert(text[len as int] == ' ');
    lemma_word_len_is(text, len);
    assert(text.take(len as int) =~= key);
    let after = text.skip(len as int);
    assert(after =~= seq![' '] + value);
    assert(after.skip(1) =~= value);
    assert(!white(value[0]));
    assert(white_len(value) == 0);
    assert(white_len(after) == 1);
    lemma_word_len_is(value, value.len());
    assert(value.take(value.len() as int) =~= value);
    let end = value.skip(value.len() as int);
    assert(end.len() == 0);
    assert(words(end) =~= Seq::empty());
    assert(words(after) =~= seq![value]);
    assert(seq![key] + seq![value] =~= seq![key, value]);
}

/// A line that goes on with `text`.
proof fn lemma_scan_line(line: Seq<u8>, text: Seq<char>, rest: Tape)
    requires
        forall|i: int| 0 <= i < text.len() ==> #[trigger] text[i] as u8 != 10 && text[i] as u8 != 13,
    ensures
        scan_line(line, tape_of(text) + (seq![Ok::<u8, nat>(10u8)] + rest)) == (Outcome::Done {
            value: line + ascii(text),
            rest,
        }),
    decreases text.len(),
{
    let tape = tape_of(text) + (seq![Ok::<u8, nat>(10u8)] + rest);
    if text.len() == 0 {
        assert(tape[0] == Ok::<u8, nat>(10u8));
        assert(tape.skip(1) =~= rest);
        assert(line + ascii(text) =~= line);
    } else {
        let c = text[0] as u8;
        let fewer = text.skip(1);
        assert(tape[0] == Ok::<u8, nat>(c));
        assert(tape.skip(1) =~= tape_of(fewer) + (seq![Ok::<u8, nat>(10u8)] + rest));
        assert forall|i: int| 0 <= i < fewer.len() implies #[trigger] fewer[i] as u8 != 10
            && fewer[i] as u8 != 13 by {
            assert(text[i + 1] as u8 != 10);
        }
        lemma_scan_line(line.push(c), fewer, rest);
        assert(line.push(c) + ascii(fewer) =~= line + ascii(text));
    }
}

/// What a line of a PAM header does.
proof fn lemma_pam_line(header: Header, line: Seq<char>, rest: Tape)
    requires
        is_ascii_chars(line),
        forall|i: int| 0 <= i < line.len() ==> #[trigger] line[i] as u8 != 10 && line[i] as u8 != 13,
    ensures
        pam_lines(header, tape_of(line) + (seq![Ok::<u8, nat>(10u8)] + rest)) == (match pam_field(
            header,
            words(line),
        ) {
            Field::Keep(next) => pam_lines(next, rest),
            Field::End => Outcome::Done { value: header, rest },
            Field::Bad(message) => Outcome::Failed { message, rest },
        }),
{
    lemma_scan_line(Seq::empty(), line, rest);
    lemma_ascii(line);
    assert(Seq::<u8>::empty() + ascii(line) =~= ascii(line));
}

proof fn lemma_digits_are_plain(n: nat)
    ensures
        plain_word(decimal(n)),
{
    decimal_reads_back(n);
    lemma_ascii_decimal(n);
    assert forall|i: int| 0 <= i < decimal(n).len() implies !white(#[trigger] decimal(n)[i]) by {
        assert(is_digit(decimal(n)[i]));
    }
}

/// A line of a PAM header with a key and a value.
proof fn lemma_pam_pair(header: Header, key: Seq<char>, value: Seq<char>, rest: Tape)
    requires
        plain_word(key),
        plain_word(value),
    ensures
        ({
            let line = key + seq![' '] + value;
            &&& is_ascii_chars(line)
            &&& pam_lines(header, tape_of(line) + (seq![Ok::<u8, nat>(10u8)] + rest)) == (match pam_field(
                header,
                seq![key, value],
            ) {
                Field::Keep(next) => pam_lines(next, rest),
                Field::End => Outcome::Done { value: header, rest },
                Field::Bad(message) => Outcome::Failed { message, rest },
            })
        }),
{
    let line = key + seq![' '] + value;
    lemma_two_words(key, value);
    assert(is_ascii_chars(seq![' ']));
    lemma_ascii_concat(key, seq![' ']);
    lemma_ascii_concat(key + seq![' '], value);
    assert forall|i: int| 0 <= i < line.len() implies #[trigger] line[i] as u8 != 10 && line[i] as u8
        != 13 by {
        if i < key.len() {
            assert(line[i] == key[i] && !white(key[i]));
        } else if i > key.len() {
            assert(line[i] == value[i - key.len() - 1] && !white(value[i - key.len() - 1]));
        }
    }
    lemma_pam_line(header, line, rest);
}

/// The keys of a PAM header are words, and differ.
proof fn lemma_pam_keys()
    ensures
        plain_word("WIDTH"@),
        plain_word("HEIGHT"@),
        plain_word("DEPTH"@),
        plain_word("MAXVAL"@),
        plain_word("TUPLTYPE"@),
        plain_word("ENDHDR"@),
        "HEIGHT"@ != "WIDTH"@,
        "DEPTH"@ != "WIDTH"@ && "DEPTH"@ != "HEIGHT"@,
        "MAXVAL"@ != "WIDTH"@ && "MAXVAL"@ != "HEIGHT"@ && "MAXVAL"@ != "DEPTH"@,
        "TUPLTYPE"@ != "WIDTH"@ && "TUPLTYPE"@ != "HEIGHT"@ && "TUPLTYPE"@ != "DEPTH"@
            && "TUPLTYPE"@ != "MAXVAL"@,
        "ENDHDR"@ != "WIDTH"@ && "ENDHDR"@ != "HEIGHT"@ && "ENDHDR"@ != "DEPTH"@ && "ENDHDR"@
            != "MAXVAL"@ && "ENDHDR"@ != "TUPLTYPE"@,
{
    reveal_strlit("WIDTH");
    reveal_strlit("HEIGHT");
    reveal_strlit("DEPTH");
    reveal_strlit("MAXVAL");
    reveal_strlit("TUPLTYPE");
    reveal_strlit("ENDHDR");
    assert("WIDTH"@[0] == 'W' && "HEIGHT"@[0] == 'H' && "DEPTH"@[0] == 'D' && "MAXVAL"@[0] == 'M'
        && "TUPLTYPE"@[0] == 'T' && "ENDHDR"@[0] == 'E');
}

proof fn lemma_tuple_types_are_plain(color_type: u8)
    ensures
        plain_word(pam_tuple_type(color_type)),
{
    reveal_strlit("GRAYSCALE");
    reveal_strlit("GRAYSCALE_ALPHA");
    reveal_strlit("RGB_ALPHA");
    reveal_strlit("RGB");
}

/// The header that a PAM file starts with.
pub open spec fn pam_header_of(info: TngImageInfo) -> Header {
    Header {
        width: info.width,
        height: info.height,
        maxval: largest_sample(info.bit_depth),
        depth: pam_depth(info.color_type),
        tuple_type: named(
            fresh_header(Format::Pam).tuple_type,
            encode_utf8(pam_tuple_type(info.color_type)),
        ),
        ..fresh_header(Format::Pam)
    }
}

/// The lines of a PAM header are read one after the other.
proof fn lemma_pam_lines(info: TngImageInfo, rest: Tape)
    ensures
        ({
            let space = seq![' '];
            let l1 = "WIDTH"@ + space + decimal(info.width as nat);
            let l2 = "HEIGHT"@ + space + decimal(info.height as nat);
            let l3 = "DEPTH"@ + space + decimal(pam_depth(info.color_type) as nat);
            let l4 = "MAXVAL"@ + space + decimal(largest_sample(info.bit_depth) as nat);
            let l5 = "TUPLTYPE"@ + space + pam_tuple_type(info.color_type);
            let l6 = "ENDHDR"@;
            let end = seq![Ok::<u8, nat>(10u8)];
            let t6 = tape_of(l6) + (end + rest);
            let t5 = tape_of(l5) + (end + t6);
            let t4 = tape_of(l4) + (end + t5);
            let t3 = tape_of(l3) + (end + t4);
            let t2 = tape_of(l2) + (end + t3);
            let t1 = tape_of(l1) + (end + t2);
            pam_lines(fresh_header(Format::Pam), t1) == (Outcome::Done {
                value: pam_header_of(info),
                rest,
            })
        }),
{
    let space = seq![' '];
    let w = decimal(info.width as nat);
    let h = decimal(info.height as nat);
    let d = decimal(pam_depth(info.color_type) as nat);
    let m = decimal(largest_sample(info.bit_depth) as nat);
    let name = pam_tuple_type(info.color_type);
    let l2 = "HEIGHT"@ + space + h;
    let l3 = "DEPTH"@ + space + d;
    let l4 = "MAXVAL"@ + space + m;
    let l5 = "TUPLTYPE"@ + space + name;
    let l6 = "ENDHDR"@;
    let end = seq![Ok::<u8, nat>(10u8)];
    let t6 = tape_of(l6) + (end + rest);
    let t5 = tape_of(l5) + (end + t6);
    let t4 = tape_of(l4) + (end + t5);
    let t3 = tape_of(l3) + (end + t4);
    let t2 = tape_of(l2) + (end + t3);
    lemma_pam_keys();
    lemma_digits_are_plain(info.width as nat);
    lemma_digits_are_plain(info.height as nat);
    lemma_digits_are_plain(pam_depth(info.color_type) as nat);
    lemma_digits_are_plain(largest_sample(info.bit_depth) as nat);
    lemma_tuple_types_are_plain(info.color_type);
    decimal_reads_back(info.width as nat);
    decimal_reads_back(info.height as nat);
    decimal_reads_back(pam_depth(info.color_type) as nat);
    decimal_reads_back(largest_sample(info.bit_depth) as nat);
    let h0 = fresh_header(Format::Pam);
    let h1 = Header { width: info.width, ..h0 };
    let h2 = Header { height: info.height, ..h1 };
    let h3 = Header { depth: pam_depth(info.color_type), ..h2 };
    let h4 = Header { maxval: largest_sample(info.bit_depth), ..h3 };
    let h5 = Header { tuple_type: named(h0.tuple_type, encode_utf8(name)), ..h4 };
    lemma_pam_pair(h0, "WIDTH"@, w, t2);
    assert(pam_field(h0, seq!["WIDTH"@, w]) == Field::Keep(h1));
    lemma_pam_pair(h1, "HEIGHT"@, h, t3);
    assert(pam_field(h1, seq!["HEIGHT"@, h]) == Field::Keep(h2));
    lemma_pam_pair(h2, "DEPTH"@, d, t4);
    assert(pam_field(h2, seq!["DEPTH"@, d]) == Field::Keep(h3));
    lemma_pam_pair(h3, "MAXVAL"@, m, t5);
    assert(pam_field(h3, seq!["MAXVAL"@, m]) == Field::Keep(h4));
    lemma_pam_pair(h4, "TUPLTYPE"@, name, t6);
    assert(pam_field(h4, seq!["TUPLTYPE"@, name]) == Field::Keep(h5));
    lemma_one_word(l6);
    assert forall|i: int| 0 <= i < l6.len() implies #[trigger] l6[i] as u8 != 10 && l6[i] as u8
        != 13 by {
        assert(!white(l6[i]));
    }
    lemma_pam_line(h5, l6, rest);
    assert(pam_field(h5, seq![l6]) == Field::End);
}

/// A line and what follows it, as they come in.
proof fn lemma_tape_line(line: Seq<char>, more: Seq<char>, rest: Tape)
    ensures
        tape_of(line + seq!['\n'] + more) + rest == tape_of(line) + (seq![Ok::<u8, nat>(10u8)] + (tape_of(
            more,
        ) + rest)),
{
    assert(tape_of(line + seq!['\n'] + more) + rest =~= tape_of(line) + (seq![Ok::<u8, nat>(10u8)] + (
    tape_of(more) + rest)));
}

/// The signature of a PAM file and what follows it, as they come in.
proof fn lemma_tape_start(more: Seq<char>, rest: Tape)
    ensures
        tape_of(seq!['P', '7', '\n'] + more) + rest == seq![
            Ok::<u8, nat>(80u8),
            Ok::<u8, nat>(55u8),
            Ok::<u8, nat>(10u8),
        ] + (
        tape_of(more) + rest),
{
    assert(tape_of(seq!['P', '7', '\n'] + more) + rest =~= seq![
        Ok::<u8, nat>(80u8),
        Ok::<u8, nat>(55u8),
        Ok::<u8, nat>(10u8),
    ] + (tape_of(more) + rest));
}

/// The header of a PAM file is read back, and what follows it is left over.
pub proof fn pam_header_reads_back(info: TngImageInfo, rest: Tape)
    ensures
        read_header(delivered(encode_utf8(pam_header_text(info))) + rest) == (Outcome::Done {
            value: pam_header_of(info),
            rest,
        }),
{
    let space = seq![' '];
    let line_end = seq!['\n'];
    let w = decimal(info.width as nat);
    let h = decimal(info.height as nat);
    let d = decimal(pam_depth(info.color_type) as nat);
    let m = decimal(largest_sample(info.bit_depth) as nat);
    let name = pam_tuple_type(info.color_type);
    let l1 = "WIDTH"@ + space + w;
    let l2 = "HEIGHT"@ + space + h;
    let l3 = "DEPTH"@ + space + d;
    let l4 = "MAXVAL"@ + space + m;
    let l5 = "TUPLTYPE"@ + space + name;
    let l6 = "ENDHDR"@;
    let end = seq![Ok::<u8, nat>(10u8)];
    let t6 = tape_of(l6) + (end + rest);
    let t5 = tape_of(l5) + (end + t6);
    let t4 = tape_of(l4) + (end + t5);
    let t3 = tape_of(l3) + (end + t4);
    let t2 = tape_of(l2) + (end + t3);
    let t1 = tape_of(l1) + (end + t2);
    let text = pam_header_text(info);
    lemma_pam_lines(info, rest);
    lemma_pam_text(info);
    lemma_ascii(text);
    let tape = tape_of(text) + rest;
    let nothing = Seq::<char>::empty();
    let x6 = l6 + line_end;
    let x5 = l5 + line_end + x6;
    let x4 = l4 + line_end + x5;
    let x3 = l3 + line_end + x4;
    let x2 = l2 + line_end + x3;
    let x1 = l1 + line_end + x2;
    assert(x6 =~= l6 + line_end + nothing);
    lemma_tape_line(l6, nothing, rest);
    assert(tape_of(nothing) + rest =~= rest);
    lemma_tape_line(l5, x6, rest);
    lemma_tape_line(l4, x5, rest);
    lemma_tape_line(l3, x4, rest);
    lemma_tape_line(l2, x3, rest);
    lemma_tape_line(l1, x2, rest);
    assert(text == seq!['P', '7', '\n'] + x1);
    lemma_tape_start(x1, rest);
    let blank: Tape = seq![Ok::<u8, nat>(10u8)];
    assert(tape.skip(2) =~= blank + t1);
    assert(tape_of(nothing) + (seq![Ok::<u8, nat>(10u8)] + t1) =~= blank + t1);
    lemma_pam_line(fresh_header(Format::Pam), nothing, t1);
    assert(words(nothing) =~= Seq::empty());
}

/// The text of a PAM header, line by line.
#[verifier::rlimit(30)]
proof fn lemma_pam_text(info: TngImageInfo)
    ensures
        ({
            let space = seq![' '];
            let line_end = seq!['\n'];
            &&& is_ascii_chars(pam_header_text(info))
            &&& pam_header_text(info) == seq!['P', '7', '\n'] + ("WIDTH"@ + space + decimal(
                info.width as nat,
            ) + line_end + ("HEIGHT"@ + space + decimal(info.height as nat) + line_end + ("DEPTH"@
                + space + decimal(pam_depth(info.color_type) as nat) + line_end + ("MAXVAL"@ + space
                + decimal(largest_sample(info.bit_depth) as nat) + line_end + ("TUPLTYPE"@ + space
                + pam_tuple_type(info.color_type) + line_end + ("ENDHDR"@ + line_end))))))
        }),
{
    let space = seq![' '];
    let line_end = seq!['\n'];
    let w = decimal(info.width as nat);
    let h = decimal(info.height as nat);
    let d = decimal(pam_depth(info.color_type) as nat);
    let m = decimal(largest_sample(info.bit_depth) as nat);
    let name = pam_tuple_type(info.color_type);
    lemma_ascii_decimal(info.width as nat);
    lemma_ascii_decimal(info.height as nat);
    lemma_ascii_decimal(pam_depth(info.color_type) as nat);
    lemma_ascii_decimal(largest_sample(info.bit_depth) as nat);
    lemma_tuple_types_are_plain(info.color_type);
    reveal_strlit("P7\nWIDTH ");
    reveal_strlit("\nHEIGHT ");
    reveal_strlit("\nDEPTH ");
    reveal_strlit("\nMAXVAL ");
    reveal_strlit("\nTUPLTYPE ");
    reveal_strlit("\nENDHDR\n");
    reveal_strlit("WIDTH");
    reveal_strlit("HEIGHT");
    reveal_strlit("DEPTH");
    reveal_strlit("MAXVAL");
    reveal_strlit("TUPLTYPE");
    reveal_strlit("ENDHDR");
    assert("P7\nWIDTH "@ =~= seq!['P', '7', '\n'] + "WIDTH"@ + space);
    assert("\nHEIGHT "@ =~= line_end + "HEIGHT"@ + space);
    assert("\nDEPTH "@ =~= line_end + "DEPTH"@ + space);
    assert("\nMAXVAL "@ =~= line_end + "MAXVAL"@ + space);
    assert("\nTUPLTYPE "@ =~= line_end + "TUPLTYPE"@ + space);
    assert("\nENDHDR\n"@ =~= line_end + "ENDHDR"@ + line_end);
    assert(is_ascii_chars("P7\nWIDTH "@) && is_ascii_chars("\nHEIGHT "@) && is_ascii_chars(
        "\nDEPTH "@,
    ) && is_ascii_chars("\nMAXVAL "@) && is_ascii_chars("\nTUPLTYPE "@) && is_ascii_chars(
        "\nENDHDR\n"@,
    ));
    let a1 = "P7\nWIDTH "@ + w;
    lemma_ascii_concat("P7\nWIDTH "@, w);
    lemma_ascii_concat(a1, "\nHEIGHT "@);
    let a2 = a1 + "\nHEIGHT "@ + h;
    lemma_ascii_concat(a1 + "\nHEIGHT "@, h);
    lemma_ascii_concat(a2, "\nDEPTH "@);
    let a3 = a2 + "\nDEPTH "@ + d;
    lemma_ascii_concat(a2 + "\nDEPTH "@, d);
    lemma_ascii_concat(a3, "\nMAXVAL "@);
    let a4 = a3 + "\nMAXVAL "@ + m;
    lemma_ascii_concat(a3 + "\nMAXVAL "@, m);
    lemma_ascii_concat(a4, "\nTUPLTYPE "@);
    let a5 = a4 + "\nTUPLTYPE "@ + name;
    lemma_ascii_concat(a4 + "\nTUPLTYPE "@, name);
    lemma_ascii_concat(a5, "\nENDHDR\n"@);
    assert(pam_header_text(info) =~= seq!['P', '7', '\n'] + ("WIDTH"@ + space + w + line_end + (
    "HEIGHT"@ + space + h + line_end + ("DEPTH"@ + space + d + line_end + ("MAXVAL"@ + space + m
        + line_end + ("TUPLTYPE"@ + space + name + line_end + ("ENDHDR"@ + line_end)))))));
}

/// A PAM file that was written for an image tells what the image is.
pub proof fn pam_header_tells_info(info: TngImageInfo)
    requires
        info.color_type == 0 || info.color_type == 2 || info.color_type == 4 || info.color_type
            == 6,
        info.bit_depth == 8 || info.bit_depth == 16,
    ensures
        info_for(pam_header_of(info)) == Some(info),
{
}

/// The rows of an image file are as long as the rows of the image that it is read as.
pub proof fn rows_agree(header: Header)
    ensures
        info_for(header) matches Some(info) ==> header.row_bytes() == info.width * pixel_bytes(
            info.color_type,
            info.bit_depth,
        ),
{
    if let Some(info) = info_for(header) {
        let samples = header.depth as int;
        let size = header.sample_bytes();
        assert(pixel_bytes(info.color_type, info.bit_depth) == samples * size);
        assert(header.width * header.depth * size == header.width * (samples * size))
            by (nonlinear_arith)
            requires
                samples == header.depth,
        ;
    }
}

} // verus!
