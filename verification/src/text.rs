//! Words and decimal numbers in text.

use vstd::prelude::*;
use vstd::string::StringExecFns;

verus! {

#[verifier::external_type_specification]
#[verifier::external_body]
pub struct ExFromUtf8Error(std::string::FromUtf8Error);

/// Text from its UTF-8 bytes, from `String::from_utf8`. Claimed: it succeeds exactly
/// on valid UTF-8, with the characters that the bytes stand for.
#[verifier::external_body]
pub(crate) fn utf8_text(bytes: Vec<u8>) -> (text: Result<String, std::string::FromUtf8Error>)
    ensures
        text is Ok <==> vstd::utf8::valid_utf8(bytes@),
        text matches Ok(text) ==> text@ == vstd::utf8::decode_utf8(bytes@),
{
    String::from_utf8(bytes)
}

/// The text that `String::from_utf8_lossy` makes of bytes that are not valid UTF-8.
pub uninterp spec fn mended_text(bytes: Seq<u8>) -> Seq<char>;

/// Text from bytes that need not be valid UTF-8, from `String::from_utf8_lossy`.
/// Claimed: valid UTF-8 gives the characters that it stands for, and other bytes give a
/// text that depends on them alone. Which replacement characters it holds is not stated.
#[verifier::external_body]
fn utf8_text_lossy(bytes: &[u8]) -> (text: String)
    ensures
        vstd::utf8::valid_utf8(bytes@) ==> text@ == vstd::utf8::decode_utf8(bytes@),
        !vstd::utf8::valid_utf8(bytes@) ==> text@ == mended_text(bytes@),
{
    String::from_utf8_lossy(bytes).into_owned()
}

/// The text of a line.
pub open spec fn line_text(bytes: Seq<u8>) -> Seq<char> {
    if vstd::utf8::valid_utf8(bytes) {
        vstd::utf8::decode_utf8(bytes)
    } else {
        mended_text(bytes)
    }
}

/// The text of a line.
pub fn read_line_text(bytes: &[u8]) -> (text: String)
    ensures
        text@ == line_text(bytes@),
{
    utf8_text_lossy(bytes)
}

/// Whether a character is white space: one of those with the property `White_Space` of the
/// Unicode character database.
pub open spec fn white(c: char) -> bool {
    ||| '\t' <= c <= '\r'
    ||| c == ' '
    ||| c == '\u{85}'
    ||| c == '\u{a0}'
    ||| c == '\u{1680}'
    ||| '\u{2000}' <= c <= '\u{200a}'
    ||| c == '\u{2028}'
    ||| c == '\u{2029}'
    ||| c == '\u{202f}'
    ||| c == '\u{205f}'
    ||| c == '\u{3000}'
}

/// Whether a character is white space, from `char::is_whitespace`. Claimed: it holds of
/// exactly the characters with the property `White_Space`, which `white` lists.
#[verifier::external_body]
fn is_whitespace(c: char) -> (yes: bool)
    ensures
        yes == white(c),
{
    c.is_whitespace()
}

/// Whether a character is white space.
pub fn is_white(c: char) -> (yes: bool)
    ensures
        yes == white(c),
{
    is_whitespace(c)
}

/// How many white characters `text` starts with.
pub open spec fn white_len(text: Seq<char>) -> nat
    decreases text.len(),
{
    if text.len() > 0 && white(text[0]) {
        1 + white_len(text.skip(1))
    } else {
        0
    }
}

/// How many characters that are not white `text` starts with.
pub open spec fn word_len(text: Seq<char>) -> nat
    decreases text.len(),
{
    if text.len() > 0 && !white(text[0]) {
        1 + word_len(text.skip(1))
    } else {
        0
    }
}

/// The words of `text`, which white space separates.
pub open spec fn words(text: Seq<char>) -> Seq<Seq<char>>
    decreases text.len(),
{
    let start = text.skip(white_len(text) as int);
    let len = word_len(start) as int;
    if 0 < len <= start.len() <= text.len() {
        seq![start.take(len)] + words(start.skip(len))
    } else {
        Seq::empty()
    }
}

proof fn lemma_white_len(text: Seq<char>)
    ensures
        white_len(text) <= text.len(),
    decreases text.len(),
{
    if text.len() > 0 && white(text[0]) {
        lemma_white_len(text.skip(1));
    }
}

proof fn lemma_word_len(text: Seq<char>)
    ensures
        word_len(text) <= text.len(),
        forall|i: int| 0 <= i < word_len(text) ==> !white(#[trigger] text[i]),
        text.len() > 0 && !white(text[0]) ==> word_len(text) > 0,
    decreases text.len(),
{
    if text.len() > 0 && !white(text[0]) {
        lemma_word_len(text.skip(1));
        assert forall|i: int| 0 <= i < word_len(text) implies !white(#[trigger] text[i]) by {
            if i > 0 {
                assert(!white(text.skip(1)[i - 1]));
            }
        }
    }
}

/// The characters of a text.
pub fn chars_of(text: &str) -> (chars: Vec<char>)
    ensures
        chars@ == text@,
{
    let mut chars: Vec<char> = Vec::new();
    for c in it: text.chars()
        invariant
            chars@ == it.seq().take(it.index() as int),
            it.seq() == text@,
    {
        chars.push(c);
        assert(it.seq().take(it.index() + 1) =~= it.seq().take(it.index() as int).push(c));
    }
    assert(text@.take(text@.len() as int) =~= text@);
    chars
}

/// Where the words of a text start and end.
pub fn word_ranges(chars: &Vec<char>) -> (ranges: Vec<(usize, usize)>)
    ensures
        ranges@.len() == words(chars@).len(),
        forall|i: int|
            0 <= i < ranges@.len() ==> {
                let (start, end) = #[trigger] ranges@[i];
                start <= end <= chars@.len() && chars@.subrange(start as int, end as int) == words(
                    chars@,
                )[i]
            },
{
    let mut ranges: Vec<(usize, usize)> = Vec::new();
    let mut at: usize = 0;
    let ghost mut found: Seq<Seq<char>> = Seq::empty();
    proof {
        assert(chars@.skip(0) =~= chars@);
        assert(found + words(chars@) =~= words(chars@));
    }
    loop
        invariant
            at <= chars@.len(),
            words(chars@) == found + words(chars@.skip(at as int)),
            ranges@.len() == found.len(),
            forall|i: int|
                0 <= i < ranges@.len() ==> {
                    let (start, end) = #[trigger] ranges@[i];
                    start <= end <= chars@.len() && chars@.subrange(start as int, end as int)
                        == found[i]
                },
        ensures
            words(chars@) == found,
        decreases chars@.len() - at,
    {
        let ghost text = chars@.skip(at as int);
        let ghost from = at;
        proof {
            lemma_white_len(text);
        }
        while at < chars.len() && is_white(chars[at])
            invariant
                from <= at <= chars@.len(),
                text == chars@.skip(from as int),
                white_len(text) == at - from + white_len(chars@.skip(at as int)),
            ensures
                at == chars@.len() || !white(chars@[at as int]),
            decreases chars@.len() - at,
        {
            proof {
                assert(chars@.skip(at as int).skip(1) =~= chars@.skip(at + 1));
            }
            at += 1;
        }
        let ghost rest = chars@.skip(at as int);
        let start: usize = at;
        proof {
            assert(text.skip(white_len(text) as int) =~= rest);
            lemma_word_len(rest);
        }
        while at < chars.len() && !is_white(chars[at])
            invariant
                start <= at <= chars@.len(),
                rest == chars@.skip(start as int),
                word_len(rest) == at - start + word_len(chars@.skip(at as int)),
            ensures
                at == chars@.len() || white(chars@[at as int]),
            decreases chars@.len() - at,
        {
            proof {
                assert(chars@.skip(at as int).skip(1) =~= chars@.skip(at + 1));
            }
            at += 1;
        }
        if start == at {
            assert(found + Seq::<Seq<char>>::empty() =~= found);
            break;
        }
        proof {
            let word = chars@.subrange(start as int, at as int);
            assert(rest.take(at - start) =~= word);
            assert(rest.skip(at - start) =~= chars@.skip(at as int));
            assert(found + (seq![word] + words(chars@.skip(at as int))) =~= found.push(word)
                + words(chars@.skip(at as int)));
            found = found.push(word);
        }
        ranges.push((start, at));
    }
    ranges
}

/// Whether a character is a decimal digit.
pub open spec fn is_digit(c: char) -> bool {
    '0' <= c <= '9'
}

/// What a digit counts.
pub open spec fn digit_value(c: char) -> nat {
    if is_digit(c) {
        (c as int - 48) as nat
    } else {
        0
    }
}

/// The number that decimal digits stand for.
pub open spec fn decimal_value(digits: Seq<char>) -> nat
    decreases digits.len(),
{
    if digits.len() == 0 {
        0
    } else {
        decimal_value(digits.drop_last()) * 10 + digit_value(digits.last())
    }
}

/// A text without the plus sign that it may start with.
pub open spec fn unsigned(text: Seq<char>) -> Seq<char> {
    if text.len() > 0 && text[0] == '+' {
        text.skip(1)
    } else {
        text
    }
}

/// Whether a text is made of digits.
pub open spec fn all_digits(text: Seq<char>) -> bool {
    text.len() > 0 && forall|i: int| 0 <= i < text.len() ==> is_digit(#[trigger] text[i])
}

/// The number that a text stands for: digits, possibly after a plus sign, whose value
/// has 32 bits.
pub open spec fn parsed_u32(text: Seq<char>) -> Option<u32> {
    let digits = unsigned(text);
    if all_digits(digits) && decimal_value(digits) <= u32::MAX {
        Some(decimal_value(digits) as u32)
    } else {
        None
    }
}

/// More digits make no smaller number.
proof fn lemma_decimal_value_grows(digits: Seq<char>, count: int)
    requires
        0 <= count <= digits.len(),
    ensures
        decimal_value(digits.take(count)) <= decimal_value(digits),
    decreases digits.len() - count,
{
    if count < digits.len() {
        lemma_decimal_value_grows(digits, count + 1);
        assert(digits.take(count + 1).drop_last() =~= digits.take(count));
    } else {
        assert(digits.take(count) =~= digits);
    }
}

/// Reads a number.
pub fn parse_u32(text: &[char]) -> (number: Option<u32>)
    ensures
        number == parsed_u32(text@),
{
    let digits: &[char] = if text.len() > 0 && text[0] == '+' {
        let rest: &[char] = vstd::slice::slice_subrange(text, 1, text.len());
        assert(rest@ =~= text@.skip(1));
        rest
    } else {
        text
    };
    if digits.len() == 0 {
        return None;
    }
    let mut value: u64 = 0;
    let mut i: usize = 0;
    assert(digits@.take(0) =~= Seq::<char>::empty());
    while i < digits.len()
        invariant
            i <= digits@.len(),
            digits@.len() > 0,
            digits@ == unsigned(text@),
            value <= u32::MAX,
            value == decimal_value(digits@.take(i as int)),
            forall|k: int| 0 <= k < i ==> is_digit(#[trigger] digits@[k]),
        decreases digits@.len() - i,
    {
        let c: char = digits[i];
        if c < '0' || c > '9' {
            assert(!is_digit(digits@[i as int]));
            return None;
        }
        value = value * 10 + (c as u64 - 48);
        proof {
            assert(digits@.take(i + 1).drop_last() =~= digits@.take(i as int));
            lemma_decimal_value_grows(digits@, i + 1);
        }
        i += 1;
        if value > u32::MAX as u64 {
            return None;
        }
    }
    assert(digits@.take(i as int) =~= digits@);
    Some(value as u32)
}

/// The decimal digits of a number, without leading zeros.
pub open spec fn decimal(n: nat) -> Seq<char>
    decreases n,
{
    if n < 10 {
        seq![(48 + n) as char]
    } else {
        decimal(n / 10).push((48 + n % 10) as char)
    }
}

/// The decimal digits of a number are digits that stand for it.
pub proof fn decimal_reads_back(n: nat)
    ensures
        decimal(n).len() > 0,
        forall|i: int| 0 <= i < decimal(n).len() ==> is_digit(#[trigger] decimal(n)[i]),
        decimal_value(decimal(n)) == n,
        n <= u32::MAX ==> parsed_u32(decimal(n)) == Some(n as u32),
    decreases n,
{
    if n < 10 {
        assert(decimal(n).drop_last() =~= Seq::<char>::empty());
        assert(decimal_value(Seq::<char>::empty()) == 0);
    } else {
        decimal_reads_back(n / 10);
        assert(decimal(n).drop_last() =~= decimal(n / 10));
    }
    assert(is_digit(decimal(n)[0]));
}

/// A digit as text.
fn digit_text(digit: u32) -> (text: &'static str)
    requires
        digit < 10,
    ensures
        text@ == seq![(48 + digit) as char],
{
    proof {
        reveal_strlit("0");
        reveal_strlit("1");
        reveal_strlit("2");
        reveal_strlit("3");
        reveal_strlit("4");
        reveal_strlit("5");
        reveal_strlit("6");
        reveal_strlit("7");
        reveal_strlit("8");
        reveal_strlit("9");
    }
    let text: &'static str = match digit {
        0 => "0",
        1 => "1",
        2 => "2",
        3 => "3",
        4 => "4",
        5 => "5",
        6 => "6",
        7 => "7",
        8 => "8",
        _ => "9",
    };
    assert(text@ =~= seq![(48 + digit) as char]);
    text
}

/// Appends the decimal digits of a number.
pub fn append_decimal(out: &mut String, n: u32)
    ensures
        final(out)@ == old(out)@ + decimal(n as nat),
    decreases n,
{
    if n >= 10 {
        append_decimal(out, n / 10);
    }
    out.append(digit_text(n % 10));
    assert(out@ =~= old(out)@ + decimal(n as nat));
}

/// Whether some characters are those of a text.
pub fn chars_are(chars: &[char], text: &str) -> (same: bool)
    ensures
        same <==> chars@ == text@,
{
    let wanted: Vec<char> = chars_of(text);
    if chars.len() != wanted.len() {
        return false;
    }
    let mut i: usize = 0;
    while i < chars.len()
        invariant
            i <= chars@.len(),
            wanted@ == text@,
            chars@.len() == wanted@.len(),
            forall|k: int| 0 <= k < i ==> chars@[k] == wanted@[k],
        decreases chars@.len() - i,
    {
        if chars[i] != wanted[i] {
            return false;
        }
        i += 1;
    }
    assert(chars@ =~= text@);
    true
}

/// The characters that are white space, by their numbers.
pub proof fn white_by_number(c: char)
    ensures
        white(c) <==> {
            let n = c as int;
            ||| 9 <= n <= 13
            ||| n == 32
            ||| n == 0x85
            ||| n == 0xa0
            ||| n == 0x1680
            ||| 0x2000 <= n <= 0x200a
            ||| n == 0x2028
            ||| n == 0x2029
            ||| n == 0x202f
            ||| n == 0x205f
            ||| n == 0x3000
        },
{
}

/// A text without white space is one word, unless it is empty.
pub proof fn unbroken_text_is_one_word(text: Seq<char>)
    requires
        forall|i: int| 0 <= i < text.len() ==> !white(#[trigger] text[i]),
    ensures
        text.len() > 0 ==> words(text) == seq![text],
        text.len() == 0 ==> words(text).len() == 0,
{
    assert(text.skip(0) =~= text);
    lemma_unbroken(text);
    if text.len() > 0 {
        let len = text.len() as int;
        assert(text.take(len) =~= text);
        assert(text.skip(len) =~= Seq::empty());
        assert(words(Seq::<char>::empty()) =~= Seq::empty());
        assert(words(text) =~= seq![text]);
    }
}

proof fn lemma_unbroken(text: Seq<char>)
    requires
        forall|i: int| 0 <= i < text.len() ==> !white(#[trigger] text[i]),
    ensures
        word_len(text) == text.len(),
        white_len(text) == 0,
    decreases text.len(),
{
    if text.len() > 0 {
        assert forall|i: int| 0 <= i < text.skip(1).len() implies !white(
            #[trigger] text.skip(1)[i],
        ) by {
            assert(text.skip(1)[i] == text[i + 1]);
        }
        lemma_unbroken(text.skip(1));
    }
}

/// White space separates words: the words of two texts with a white character between them are
/// the words of the first and then those of the second.
pub proof fn white_space_separates_words(a: Seq<char>, c: char, b: Seq<char>)
    requires
        white(c),
    ensures
        words(a + seq![c] + b) == words(a) + words(b),
    decreases a.len(),
{
    let text = a + seq![c] + b;
    let n = white_len(a) as int;
    lemma_white_len(a);
    lemma_after_white(a);
    lemma_white_prefix(a, text);
    if n == a.len() {
        lemma_white_words(a);
        assert(text.skip(n) =~= seq![c] + b);
        lemma_leading_white(text, n);
        lemma_leading_white(seq![c] + b, 1);
        assert((seq![c] + b).skip(1) =~= b);
        assert(words(a) + words(b) =~= words(b));
    } else {
        let start = a.skip(n);
        let len = word_len(start) as int;
        lemma_word_len(start);
        assert(start[0] == a[n]);
        let left = start.skip(len);
        let whole = text.skip(n);
        assert(whole =~= start + (seq![c] + b));
        lemma_word_stops(start, seq![c] + b);
        assert(whole.take(len) =~= start.take(len));
        assert(whole.skip(len) =~= left + seq![c] + b);
        lemma_leading_white(text, n);
        lemma_no_leading_white(whole);
        assert(whole.skip(0) =~= whole);
        assert(words(whole) == seq![whole.take(len)] + words(whole.skip(len)));
        white_space_separates_words(left, c, b);
        assert(words(a) == seq![start.take(len)] + words(left));
        assert(words(a) + words(b) =~= seq![start.take(len)] + (words(left) + words(b)));
    }
}

/// What comes after the white space at the start is not white.
proof fn lemma_after_white(text: Seq<char>)
    ensures
        white_len(text) < text.len() ==> !white(text[white_len(text) as int]),
        forall|i: int| 0 <= i < white_len(text) ==> white(#[trigger] text[i]),
    decreases text.len(),
{
    if text.len() > 0 && white(text[0]) {
        lemma_white_len(text);
        lemma_white_len(text.skip(1));
        lemma_after_white(text.skip(1));
        assert forall|i: int| 0 <= i < white_len(text) implies white(#[trigger] text[i]) by {
            if i > 0 {
                assert(white(text.skip(1)[i - 1]));
            }
        }
    }
}

/// The white space that a text starts with is white space that a longer text starts with.
proof fn lemma_white_prefix(a: Seq<char>, text: Seq<char>)
    requires
        a.len() <= text.len(),
        forall|i: int| 0 <= i < a.len() ==> a[i] == text[i],
    ensures
        forall|i: int| 0 <= i < white_len(a) ==> white(#[trigger] text[i]),
{
    lemma_white_len(a);
    lemma_after_white(a);
    assert forall|i: int| 0 <= i < white_len(a) implies white(#[trigger] text[i]) by {
        assert(white(a[i]));
    }
}

/// White space at the start makes no word.
proof fn lemma_leading_white(text: Seq<char>, n: int)
    requires
        0 <= n <= text.len(),
        forall|i: int| 0 <= i < n ==> white(#[trigger] text[i]),
    ensures
        words(text) == words(text.skip(n)),
        white_len(text) == n + white_len(text.skip(n)),
    decreases n,
{
    if n == 0 {
        assert(text.skip(0) =~= text);
    } else {
        assert(white(text[0]));
        let next = text.skip(1);
        assert forall|i: int| 0 <= i < n - 1 implies white(#[trigger] next[i]) by {
            assert(white(text[i + 1]));
        }
        lemma_leading_white(next, n - 1);
        assert(next.skip(n - 1) =~= text.skip(n));
        lemma_white_len(text);
        lemma_white_len(next);
        assert(text.skip(white_len(text) as int) =~= next.skip(white_len(next) as int));
    }
}

proof fn lemma_no_leading_white(text: Seq<char>)
    requires
        text.len() > 0,
        !white(text[0]),
    ensures
        white_len(text) == 0,
{
}

/// A text of white space has no words.
proof fn lemma_white_words(text: Seq<char>)
    requires
        white_len(text) == text.len(),
    ensures
        words(text) == Seq::<Seq<char>>::empty(),
{
    assert(text.skip(text.len() as int) =~= Seq::empty());
}

/// A word ends where white space follows it.
proof fn lemma_word_stops(text: Seq<char>, after: Seq<char>)
    requires
        after.len() > 0,
        white(after[0]),
    ensures
        word_len(text + after) == word_len(text),
    decreases text.len(),
{
    if text.len() == 0 {
        assert(text + after =~= after);
    } else {
        assert((text + after)[0] == text[0]);
        if !white(text[0]) {
            lemma_word_stops(text.skip(1), after);
            assert((text + after).skip(1) =~= text.skip(1) + after);
        }
    }
}

/// Ten to the power of `n`.
pub open spec fn ten_to(n: nat) -> nat
    decreases n,
{
    if n == 0 {
        1
    } else {
        10 * ten_to((n - 1) as nat)
    }
}

/// Digits count by their place: digits after others move those up by a power of ten, and a
/// single digit counts what it says.
pub proof fn digits_count_by_their_place(a: Seq<char>, b: Seq<char>)
    ensures
        decimal_value(a + b) == decimal_value(a) * ten_to(b.len()) + decimal_value(b),
        forall|c: char|
            '0' <= c <= '9' ==> #[trigger] decimal_value(seq![c]) == c as int - '0' as int,
    decreases b.len(),
{
    assert forall|c: char| '0' <= c <= '9' implies #[trigger] decimal_value(seq![c]) == c as int
        - '0' as int by {
        assert(seq![c].drop_last() =~= Seq::<char>::empty());
        assert(decimal_value(Seq::<char>::empty()) == 0);
    }
    if b.len() == 0 {
        assert(a + b =~= a);
        assert(decimal_value(a) * 1 == decimal_value(a));
        assert(ten_to(0) == 1);
    } else {
        let head = b.drop_last();
        digits_count_by_their_place(a, head);
        assert((a + b).drop_last() =~= a + head);
        assert(ten_to(b.len()) == 10 * ten_to(head.len()));
        assert((decimal_value(a) * ten_to(head.len()) + decimal_value(head)) * 10 == decimal_value(
            a,
        ) * (10 * ten_to(head.len())) + decimal_value(head) * 10) by (nonlinear_arith);
    }
}

/// Whether a text is made of the digits from 0 to 9, at least one, that stand for `value`.
pub open spec fn digits_of(text: Seq<char>, value: u32) -> bool {
    &&& text.len() > 0
    &&& forall|i: int| 0 <= i < text.len() ==> 48 <= (#[trigger] text[i]) as int <= 57
    &&& decimal_value(text) == value
}

/// What is read as a number: a text of digits, possibly after one plus sign, whose value is
/// below 2^32. The number is that value.
pub proof fn numbers_are_digits(text: Seq<char>, value: u32)
    ensures
        text.len() > 0 && text[0] == '+' ==> (parsed_u32(text) == Some(value) <==> digits_of(
            text.subrange(1, text.len() as int),
            value,
        )),
        text.len() == 0 || text[0] != '+' ==> (parsed_u32(text) == Some(value) <==> digits_of(
            text,
            value,
        )),
{
    if text.len() > 0 {
        assert(text.subrange(1, text.len() as int) =~= text.skip(1));
    }
    let digits = unsigned(text);
    if all_digits(digits) {
        assert forall|i: int| 0 <= i < digits.len() implies 48 <= (#[trigger] digits[i]) as int
            <= 57 by {
            assert(is_digit(digits[i]));
        }
    }
    if digits_of(digits, value) {
        assert forall|i: int| 0 <= i < digits.len() implies is_digit(#[trigger] digits[i]) by {
            assert(48 <= digits[i] as int <= 57);
        }
    }
}

/// A number is printed as the one text of digits that stands for it and has no zero in front.
pub proof fn numbers_are_printed_without_zeros(n: nat)
    ensures
        decimal(n).len() > 0,
        decimal_value(decimal(n)) == n,
        forall|i: int| 0 <= i < decimal(n).len() ==> '0' <= #[trigger] decimal(n)[i] <= '9',
        decimal(n).len() > 1 ==> decimal(n)[0] != '0',
    decreases n,
{
    decimal_reads_back(n);
    assert forall|i: int| 0 <= i < decimal(n).len() implies '0' <= #[trigger] decimal(n)[i]
        <= '9' by {
        assert(is_digit(decimal(n)[i]));
    }
    if n >= 10 {
        numbers_are_printed_without_zeros(n / 10);
        decimal_reads_back(n / 10 / 10);
        if n / 10 < 10 {
            let first = (48 + n / 10) as char;
            assert(decimal(n / 10) == seq![first]);
            assert(first != '0');
        }
    }
}

/// A line that is valid UTF-8 is read as the characters that it stands for.
pub proof fn lines_are_read_as_text(bytes: Seq<u8>)
    requires
        vstd::utf8::valid_utf8(bytes),
    ensures
        line_text(bytes) == vstd::utf8::decode_utf8(bytes),
{
}

} // verus!
