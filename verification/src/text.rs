//! Text forms of bytes and identifiers: hexadecimal, base64, UUIDs and
//! the character classes that a text message may hold.

use base64::engine::general_purpose::STANDARD;
use base64::Engine;
use vstd::prelude::*;

verus! {

/// The lower-case hexadecimal digit of a value below sixteen.
pub open spec fn hex_digit(v: int) -> char {
    if v < 10 {
        ((48 + v) as u8) as char
    } else {
        ((87 + v) as u8) as char
    }
}

/// The lower-case hexadecimal text of `bytes`, two digits a byte.
pub open spec fn hex_text(bytes: Seq<u8>) -> Seq<char> {
    Seq::new(
        2 * bytes.len(),
        |i: int|
            if i % 2 == 0 {
                hex_digit(bytes[i / 2] as int / 16)
            } else {
                hex_digit(bytes[i / 2] as int % 16)
            },
    )
}

/// The value of a hexadecimal digit of either case.
pub open spec fn hex_value(c: char) -> Option<int> {
    let v = c as u32;
    if 48 <= v <= 57 {
        Some(v - 48)
    } else if 97 <= v <= 102 {
        Some(v - 87)
    } else if 65 <= v <= 70 {
        Some(v - 55)
    } else {
        None
    }
}

/// Whether `text` is an even number of hexadecimal digits.
pub open spec fn is_hex_text(text: Seq<char>) -> bool {
    &&& text.len() % 2 == 0
    &&& forall|i: int| 0 <= i < text.len() ==> (#[trigger] hex_value(text[i])) is Some
}

/// The bytes that a hexadecimal text spells.
pub open spec fn hex_bytes(text: Seq<char>) -> Seq<u8> {
    Seq::new(
        text.len() / 2,
        |i: int| (hex_value(text[2 * i])->0 * 16 + hex_value(text[2 * i + 1])->0) as u8,
    )
}

fn hex_digit_of(v: u8) -> (c: char)
    requires
        v < 16,
    ensures
        c == hex_digit(v as int),
{
    if v < 10 {
        (48 + v) as char
    } else {
        (87 + v) as char
    }
}

fn hex_value_of(c: char) -> (r: Option<u8>)
    ensures
        match r {
            Some(v) => hex_value(c) == Some(v as int) && v < 16,
            None => hex_value(c) is None,
        },
{
    let v: u32 = c as u32;
    if 48 <= v && v <= 57 {
        Some((v - 48) as u8)
    } else if 97 <= v && v <= 102 {
        Some((v - 87) as u8)
    } else if 65 <= v && v <= 70 {
        Some((v - 55) as u8)
    } else {
        None
    }
}

/// The lower-case hexadecimal text of `bytes`.
pub fn hex_encode(bytes: &[u8]) -> (r: String)
    ensures
        r@ == hex_text(bytes@),
{
    let n = bytes.len();
    let mut out = String::new();
    let mut i: usize = 0;
    assert(out@ =~= hex_text(bytes@.take(0)));
    while i < n
        invariant
            i <= n,
            n == bytes@.len(),
            out@ == hex_text(bytes@.take(i as int)),
        decreases n - i,
    {
        let b: u8 = bytes[i];
        push_char(&mut out, hex_digit_of(b / 16));
        push_char(&mut out, hex_digit_of(b % 16));
        proof {
            let before = hex_text(bytes@.take(i as int));
            let after = hex_text(bytes@.take(i + 1));
            assert forall|j: int| 0 <= j < after.len() implies out@[j] == after[j] by {
                if j < 2 * i {
                    assert(out@[j] == before[j]);
                    assert(bytes@.take(i as int)[j / 2] == bytes@.take(i + 1)[j / 2]);
                } else {
                    assert(j / 2 == i);
                    assert(bytes@.take(i + 1)[i as int] == b);
                }
            }
            assert(out@ =~= after);
        }
        i = i + 1;
    }
    assert(bytes@.take(n as int) =~= bytes@);
    out
}

/// The bytes that `text` spells in hexadecimal, either case; nothing
/// where `text` is of odd length or holds another character.
pub fn hex_decode(text: &str) -> (r: Option<Vec<u8>>)
    ensures
        r is Some <==> is_hex_text(text@),
        r matches Some(v) ==> v@ == hex_bytes(text@),
{
    let n = text.unicode_len();
    if n % 2 != 0 {
        return None;
    }
    let half = n / 2;
    let mut out: Vec<u8> = Vec::new();
    let mut i: usize = 0;
    while i < half
        invariant
            i <= half,
            n == text@.len(),
            n == 2 * half,
            out@.len() == i,
            forall|j: int| 0 <= j < 2 * i ==> (#[trigger] hex_value(text@[j])) is Some,
            forall|j: int| 0 <= j < i ==> out@[j] == #[trigger] hex_bytes(text@)[j],
        decreases half - i,
    {
        let high = match hex_value_of(text.get_char(2 * i)) {
            Some(v) => v,
            None => {
                assert(hex_value(text@[2 * i]) is None);
                return None;
            },
        };
        let low = match hex_value_of(text.get_char(2 * i + 1)) {
            Some(v) => v,
            None => {
                assert(hex_value(text@[2 * i + 1]) is None);
                return None;
            },
        };
        out.push(high * 16 + low);
        assert forall|j: int| 0 <= j < 2 * (i + 1) implies (#[trigger] hex_value(
            text@[j],
        )) is Some by {
            if j == 2 * i {
            } else if j == 2 * i + 1 {
            }
        }
        i = i + 1;
    }
    assert(out@ =~= hex_bytes(text@));
    Some(out)
}

/// Hexadecimal text that was written from bytes spells those bytes.
pub proof fn lemma_hex_round_trip(bytes: Seq<u8>)
    ensures
        is_hex_text(hex_text(bytes)),
        hex_bytes(hex_text(bytes)) == bytes,
{
    let t = hex_text(bytes);
    assert forall|i: int| 0 <= i < t.len() implies (#[trigger] hex_value(t[i])) is Some by {
        let b = bytes[i / 2] as int;
        assert(0 <= b / 16 < 16 && 0 <= b % 16 < 16);
    }
    assert forall|i: int| 0 <= i < bytes.len() implies hex_bytes(t)[i] == bytes[i] by {
        let b = bytes[i] as int;
        assert((2 * i) / 2 == i && (2 * i + 1) / 2 == i);
        assert((2 * i) % 2 == 0 && (2 * i + 1) % 2 == 1);
        assert(0 <= b / 16 < 16 && 0 <= b % 16 < 16);
        assert(hex_value(hex_digit(b / 16)) == Some(b / 16));
        assert(hex_value(hex_digit(b % 16)) == Some(b % 16));
        assert(b / 16 * 16 + b % 16 == b);
    }
    assert(hex_bytes(t) =~= bytes);
}

/// The base64 text of bytes, standard alphabet with padding.
pub uninterp spec fn base64_text(bytes: Seq<u8>) -> Seq<char>;

/// The bytes that a base64 text spells, where it is well-formed.
pub uninterp spec fn base64_bytes(text: Seq<char>) -> Option<Seq<u8>>;

/// `base64::engine::general_purpose::STANDARD.encode`. Decoding the text
/// gives the bytes back, the standard alphabet holds no comma, and with
/// padding every three bytes, the last ones too, give four characters.
#[verifier::external_body]
fn base64_encode_outside(bytes: &[u8]) -> (r: String)
    ensures
        r@ == base64_text(bytes@),
        base64_bytes(r@) == Some(bytes@),
        !r@.contains(','),
        r@.len() == 4 * ((bytes@.len() + 2) / 3),
{
    STANDARD.encode(bytes)
}

/// `base64::engine::general_purpose::STANDARD.decode`.
#[verifier::external_body]
fn base64_decode_outside(text: &str) -> (r: Option<Vec<u8>>)
    ensures
        r is Some <==> base64_bytes(text@) is Some,
        r matches Some(v) ==> base64_bytes(text@) == Some(v@),
{
    STANDARD.decode(text).ok()
}

/// The base64 text of `bytes`.
pub fn base64_encode(bytes: &[u8]) -> (r: String)
    ensures
        r@ == base64_text(bytes@),
        base64_bytes(r@) == Some(bytes@),
        !r@.contains(','),
        r@.len() == 4 * ((bytes@.len() + 2) / 3),
        bytes@.len() > 0 ==> r@.len() > 0,
{
    base64_encode_outside(bytes)
}

/// The bytes that `text` spells in base64, where it is well-formed.
pub fn base64_decode(text: &str) -> (r: Option<Vec<u8>>)
    ensures
        r is Some <==> base64_bytes(text@) is Some,
        r matches Some(v) ==> base64_bytes(text@) == Some(v@),
{
    base64_decode_outside(text)
}

/// Whether a text is a UUID in one of the forms that are read.
pub uninterp spec fn uuid_parses(text: Seq<char>) -> bool;

/// `uuid::Uuid::parse_str`: whether `text` reads as a UUID.
#[verifier::external_body]
fn uuid_parses_outside(text: &str) -> (r: bool)
    ensures
        r == uuid_parses(text@),
{
    uuid::Uuid::parse_str(text).is_ok()
}

/// `uuid::Uuid::new_v4`, in its hyphenated text: a random identifier.
/// Whatever was drawn, the text reads as a UUID. Where the operating
/// system gives no random bytes, the call does not come back.
#[verifier::external_body]
fn uuid_fresh_outside() -> (r: String)
    ensures
        uuid_parses(r@),
{
    uuid::Uuid::new_v4().to_string()
}

/// Whether `text` reads as a UUID.
pub fn is_uuid(text: &str) -> (r: bool)
    ensures
        r == uuid_parses(text@),
{
    uuid_parses_outside(text)
}

/// A fresh random identifier, as UUID text.
pub fn fresh_uuid() -> (r: String)
    ensures
        uuid_parses(r@),
{
    uuid_fresh_outside()
}

/// Whether Unicode counts a character as a letter or a digit.
pub uninterp spec fn char_alphanumeric(c: char) -> bool;

/// Whether Unicode counts a character as white space: the characters
/// with the property White_Space, which are tab to carriage return, the
/// space, next line, the no-break space, the ogham space mark, the spaces
/// en quad to hair space, the line and the paragraph separator, the narrow
/// no-break space, the medium mathematical space and the ideographic
/// space.
pub open spec fn char_whitespace(c: char) -> bool {
    let n = c as u32;
    ||| 0x09 <= n <= 0x0d
    ||| n == 0x20
    ||| n == 0x85
    ||| n == 0xa0
    ||| n == 0x1680
    ||| 0x2000 <= n <= 0x200a
    ||| n == 0x2028
    ||| n == 0x2029
    ||| n == 0x202f
    ||| n == 0x205f
    ||| n == 0x3000
}

/// `char::is_alphanumeric` of std.
#[verifier::external_body]
fn is_alphanumeric_outside(c: char) -> (r: bool)
    ensures
        r == char_alphanumeric(c),
{
    c.is_alphanumeric()
}

/// Whether Unicode counts a character as white space.
pub fn is_whitespace(c: char) -> (r: bool)
    ensures
        r == char_whitespace(c),
{
    let n: u32 = c as u32;
    (0x09 <= n && n <= 0x0d) || n == 0x20 || n == 0x85 || n == 0xa0 || n == 0x1680 || (0x2000 <= n
        && n <= 0x200a) || n == 0x2028 || n == 0x2029 || n == 0x202f || n == 0x205f || n == 0x3000
}

/// Whether a text message may hold `c`: a letter, a digit, white space
/// or one of `.`, `,`, `!`, `?`.
pub open spec fn text_char_allowed(c: char) -> bool {
    char_alphanumeric(c) || char_whitespace(c) || c == '.' || c == ',' || c == '!' || c == '?'
}

/// Whether a text message may hold `c`.
pub fn is_text_char_allowed(c: char) -> (r: bool)
    ensures
        r == text_char_allowed(c),
{
    is_alphanumeric_outside(c) || is_whitespace(c) || c == '.' || c == ',' || c == '!'
        || c == '?'
}

/// Whether every character of `text` may stand in a text message.
pub open spec fn text_chars_allowed(text: Seq<char>) -> bool {
    forall|i: int| 0 <= i < text.len() ==> text_char_allowed(#[trigger] text[i])
}

/// Whether every character of `text` may stand in a text message.
pub fn all_text_chars_allowed(text: &str) -> (r: bool)
    ensures
        r == text_chars_allowed(text@),
{
    let n = text.unicode_len();
    let mut i: usize = 0;
    while i < n
        invariant
            i <= n,
            n == text@.len(),
            forall|j: int| 0 <= j < i ==> text_char_allowed(#[trigger] text@[j]),
        decreases n - i,
    {
        if !is_text_char_allowed(text.get_char(i)) {
            return false;
        }
        i = i + 1;
    }
    true
}

/// A text without the white space at its front.
pub open spec fn trimmed_front(text: Seq<char>) -> Seq<char>
    decreases text.len(),
{
    if text.len() > 0 && char_whitespace(text[0]) {
        trimmed_front(text.skip(1))
    } else {
        text
    }
}

/// A text without the white space at its back.
pub open spec fn trimmed_back(text: Seq<char>) -> Seq<char>
    decreases text.len(),
{
    if text.len() > 0 && char_whitespace(text.last()) {
        trimmed_back(text.drop_last())
    } else {
        text
    }
}

/// A text without the white space at its ends.
pub open spec fn trimmed(text: Seq<char>) -> Seq<char> {
    trimmed_back(trimmed_front(text))
}

/// What is left of a text whose front is trimmed is its rest from the
/// first character that is no white space.
proof fn lemma_trimmed_front(text: Seq<char>, start: int)
    requires
        0 <= start <= text.len(),
        forall|j: int| 0 <= j < start ==> char_whitespace(#[trigger] text[j]),
        start < text.len() ==> !char_whitespace(text[start]),
    ensures
        trimmed_front(text) == text.skip(start),
    decreases start,
{
    if start == 0 {
        assert(text.skip(0) =~= text);
    } else {
        let rest = text.skip(1);
        assert forall|j: int| 0 <= j < start - 1 implies char_whitespace(#[trigger] rest[j]) by {
            assert(rest[j] == text[j + 1]);
        }
        lemma_trimmed_front(rest, start - 1);
        assert(rest.skip(start - 1) =~= text.skip(start));
    }
}

/// What is left of a text whose back is trimmed is its front up to the
/// last character that is no white space.
proof fn lemma_trimmed_back(text: Seq<char>, end: int)
    requires
        0 <= end <= text.len(),
        forall|j: int| end <= j < text.len() ==> char_whitespace(#[trigger] text[j]),
        end > 0 ==> !char_whitespace(text[end - 1]),
    ensures
        trimmed_back(text) == text.take(end),
    decreases text.len() - end,
{
    if end == text.len() {
        assert(text.take(end) =~= text);
    } else {
        let front = text.drop_last();
        lemma_trimmed_back(front, end);
        assert(front.take(end) =~= text.take(end));
    }
}

/// The text without the white space at its ends.
pub fn trim(text: &str) -> (r: String)
    ensures
        r@ == trimmed(text@),
{
    let n = text.unicode_len();
    let mut start: usize = 0;
    let mut going = true;
    while going && start < n
        invariant
            start <= n,
            n == text@.len(),
            forall|j: int| 0 <= j < start ==> char_whitespace(#[trigger] text@[j]),
            !going ==> start < n && !char_whitespace(text@[start as int]),
        decreases n - start + if going { 1int } else { 0int },
    {
        if is_whitespace(text.get_char(start)) {
            start = start + 1;
        } else {
            going = false;
        }
    }
    let mut end: usize = n;
    going = true;
    while going && end > start
        invariant
            start <= end <= n,
            n == text@.len(),
            forall|j: int| end <= j < n ==> char_whitespace(#[trigger] text@[j]),
            !going ==> end > start && !char_whitespace(text@[end - 1]),
        decreases end - start + if going { 1int } else { 0int },
    {
        if is_whitespace(text.get_char(end - 1)) {
            end = end - 1;
        } else {
            going = false;
        }
    }
    proof {
        let s = text@;
        let rest = s.skip(start as int);
        lemma_trimmed_front(s, start as int);
        assert forall|j: int| end - start <= j < rest.len() implies char_whitespace(
            #[trigger] rest[j],
        ) by {
            assert(rest[j] == s[j + start]);
        }
        if end > start {
            assert(rest[end - start - 1] == s[end - 1]);
        }
        lemma_trimmed_back(rest, end - start);
        assert(rest.take(end - start) =~= s.subrange(start as int, end as int));
    }
    text.substring_char(start, end).to_string()
}

/// The pieces of a text between its commas, in their order; a text
/// without a comma is one piece.
pub open spec fn comma_pieces(text: Seq<char>) -> Seq<Seq<char>>
    decreases text.len(),
{
    if text.len() == 0 {
        seq![Seq::<char>::empty()]
    } else {
        let before = comma_pieces(text.drop_last());
        if text.last() == ',' {
            before.push(Seq::<char>::empty())
        } else {
            before.drop_last().push(before.last().push(text.last()))
        }
    }
}

/// There is always a piece.
pub proof fn lemma_comma_pieces_nonempty(text: Seq<char>)
    ensures
        comma_pieces(text).len() >= 1,
    decreases text.len(),
{
    if text.len() > 0 {
        lemma_comma_pieces_nonempty(text.drop_last());
    }
}

/// The texts of a vector as mathematical values.
pub open spec fn strings_view(v: Seq<String>) -> Seq<Seq<char>> {
    Seq::new(v.len(), |i: int| v[i]@)
}

/// The pieces of a text between its commas.
pub fn split_commas(text: &str) -> (r: Vec<String>)
    ensures
        strings_view(r@) == comma_pieces(text@),
{
    let n = text.unicode_len();
    let mut out: Vec<String> = Vec::new();
    let mut start: usize = 0;
    let mut i: usize = 0;
    let ghost s = text@;
    assert(s.take(0) =~= Seq::<char>::empty());
    assert(strings_view(out@).push(s.subrange(0, 0)) =~= comma_pieces(s.take(0)));
    while i < n
        invariant
            start <= i <= n,
            n == text@.len(),
            s == text@,
            strings_view(out@).push(s.subrange(start as int, i as int)) == comma_pieces(
                s.take(i as int),
            ),
        decreases n - i,
    {
        let ghost before = comma_pieces(s.take(i as int));
        assert(s.take(i + 1).drop_last() =~= s.take(i as int));
        assert(s.take(i + 1).last() == s[i as int]);
        assert(before.last() == s.subrange(start as int, i as int));
        assert(before.drop_last() =~= strings_view(out@));
        if text.get_char(i) == ',' {
            let piece = text.substring_char(start, i);
            let ghost prev = out@;
            out.push(piece.to_string());
            assert(strings_view(out@) =~= strings_view(prev).push(
                s.subrange(start as int, i as int),
            ));
            start = i + 1;
            assert(s.subrange(start as int, i + 1) =~= Seq::<char>::empty());
        } else {
            assert(s.subrange(start as int, i + 1) =~= s.subrange(start as int, i as int).push(
                s[i as int],
            ));
        }
        i = i + 1;
    }
    assert(s.take(n as int) =~= s);
    let piece = text.substring_char(start, n);
    let ghost prev = out@;
    out.push(piece.to_string());
    assert(strings_view(out@) =~= strings_view(prev).push(s.subrange(start as int, n as int)));
    out
}

/// The texts joined by commas.
pub open spec fn comma_joined(pieces: Seq<Seq<char>>) -> Seq<char>
    decreases pieces.len(),
{
    if pieces.len() == 0 {
        Seq::<char>::empty()
    } else if pieces.len() == 1 {
        pieces[0]
    } else {
        comma_joined(pieces.drop_last()) + seq![','] + pieces.last()
    }
}

/// Texts without a comma that are joined by commas are the pieces of
/// what they were joined to, given that there is a text at all.
pub proof fn lemma_joined_pieces(pieces: Seq<Seq<char>>)
    requires
        pieces.len() > 0,
        forall|i: int| 0 <= i < pieces.len() ==> !(#[trigger] pieces[i]).contains(','),
    ensures
        comma_pieces(comma_joined(pieces)) == pieces,
    decreases pieces.len(),
{
    if pieces.len() == 1 {
        let none = Seq::<char>::empty();
        lemma_pieces_of_longer(none, pieces[0]);
        assert(none + pieces[0] =~= pieces[0]);
        assert(seq![none].drop_last().push(none + pieces[0]) =~= pieces);
    } else {
        let front = pieces.drop_last();
        lemma_joined_pieces(front);
        lemma_pieces_of_longer(comma_joined(front) + seq![','], pieces.last());
        assert((comma_joined(front) + seq![',']).drop_last() =~= comma_joined(front));
        assert(front.push(Seq::<char>::empty()).drop_last() =~= front);
        assert(front.push(pieces.last()) =~= pieces);
    }
}

proof fn lemma_pieces_of_longer(head: Seq<char>, tail: Seq<char>)
    requires
        !tail.contains(','),
    ensures
        comma_pieces(head + tail) == comma_pieces(head).drop_last().push(
            comma_pieces(head).last() + tail,
        ),
    decreases tail.len(),
{
    lemma_comma_pieces_nonempty(head);
    if tail.len() == 0 {
        assert(head + tail =~= head);
        assert(comma_pieces(head).last() + tail =~= comma_pieces(head).last());
        assert(comma_pieces(head).drop_last().push(comma_pieces(head).last()) =~= comma_pieces(
            head,
        ));
    } else {
        let short = tail.drop_last();
        assert forall|c: char| short.contains(c) implies tail.contains(c) by {
            let i = choose|i: int| 0 <= i < short.len() && short[i] == c;
            assert(tail[i] == c);
        }
        lemma_pieces_of_longer(head, short);
        assert((head + tail).drop_last() =~= head + short);
        assert((head + tail).last() == tail.last());
        assert(tail[tail.len() - 1] == tail.last());
        let before = comma_pieces(head + short);
        assert(before.last() == comma_pieces(head).last() + short);
        assert(before.drop_last() =~= comma_pieces(head).drop_last());
        assert(comma_pieces(head).last() + short + seq![tail.last()] =~= comma_pieces(
            head,
        ).last() + tail);
        assert(before.last().push(tail.last()) =~= comma_pieces(head).last() + tail);
    }
}

/// The texts joined by commas.
pub fn join_commas(pieces: &Vec<String>) -> (r: String)
    ensures
        r@ == comma_joined(strings_view(pieces@)),
{
    let n = pieces.len();
    let mut out = String::new();
    let ghost s = strings_view(pieces@);
    let mut i: usize = 0;
    assert(s.take(0) =~= Seq::<Seq<char>>::empty());
    while i < n
        invariant
            i <= n,
            n == pieces@.len(),
            s == strings_view(pieces@),
            out@ == comma_joined(s.take(i as int)),
        decreases n - i,
    {
        assert(s.take(i + 1).drop_last() =~= s.take(i as int));
        assert(s.take(i + 1).last() == s[i as int]);
        assert(s[i as int] == pieces@[i as int]@);
        if i > 0 {
            proof {
                reveal_strlit(",");
                assert(","@ =~= seq![',']);
            }
            out = out.concat(",");
        } else {
            assert(s.take(1)[0] == s[0]);
            assert(out@ + s[0] =~= s[0]);
        }
        out = out.concat(pieces[i].as_str());
        i = i + 1;
    }
    assert(s.take(n as int) =~= s);
    out
}

/// `String::push` of std: the text with one more character at its end.
#[verifier::external_body]
fn push_char_outside(text: &mut String, c: char)
    ensures
        final(text)@ == old(text)@.push(c),
{
    text.push(c);
}

/// Puts a character at the end of a text.
pub fn push_char(text: &mut String, c: char)
    ensures
        final(text)@ == old(text)@.push(c),
{
    push_char_outside(text, c);
}

/// The decimal digits of a number, without a sign and without leading
/// zeros; zero is `0`.
pub open spec fn decimal(n: nat) -> Seq<char>
    decreases n,
{
    if n < 10 {
        seq![((48 + n) as u8) as char]
    } else {
        decimal(n / 10).push(((48 + n % 10) as u8) as char)
    }
}

/// The decimal digits of a number.
pub fn decimal_text(n: u64) -> (r: String)
    ensures
        r@ == decimal(n as nat),
{
    let mut digits: Vec<u8> = Vec::new();
    let mut rest: u64 = n;
    assert(decimal(rest as nat) + Seq::<char>::empty() =~= decimal(rest as nat));
    assert(Seq::new(0nat, |i: int| ((48 + digits@[digits@.len() - 1 - i]) as u8) as char)
        =~= Seq::<char>::empty());
    while rest >= 10
        invariant
            decimal(n as nat) == decimal(rest as nat) + Seq::new(
                digits@.len(),
                |i: int| ((48 + digits@[digits@.len() - 1 - i]) as u8) as char,
            ),
            forall|i: int| 0 <= i < digits@.len() ==> digits@[i] < 10,
        decreases rest,
    {
        let d: u8 = (rest % 10) as u8;
        let ghost old_digits = digits@;
        let ghost old_rest = rest;
        digits.push(d);
        rest = rest / 10;
        proof {
            let tail_old = Seq::new(
                old_digits.len(),
                |i: int| ((48 + old_digits[old_digits.len() - 1 - i]) as u8) as char,
            );
            let tail_new = Seq::new(
                digits@.len(),
                |i: int| ((48 + digits@[digits@.len() - 1 - i]) as u8) as char,
            );
            assert(tail_new =~= seq![((48 + d) as u8) as char] + tail_old);
            assert(decimal(old_rest as nat) == decimal(rest as nat).push(((48 + d) as u8) as char));
            assert(decimal(rest as nat).push(((48 + d) as u8) as char) + tail_old =~= decimal(
                rest as nat,
            ) + tail_new);
        }
    }
    let mut out = String::new();
    push_char(&mut out, (48 + (rest as u8)) as char);
    let ghost head = out@;
    assert(head =~= decimal(rest as nat));
    let k = digits.len();
    let mut i: usize = 0;
    assert(out@ =~= head + Seq::new(
        0nat,
        |j: int| ((48 + digits@[digits@.len() - 1 - j]) as u8) as char,
    ));
    while i < k
        invariant
            i <= k,
            k == digits@.len(),
            forall|j: int| 0 <= j < digits@.len() ==> digits@[j] < 10,
            out@ == head + Seq::new(
                i as nat,
                |j: int| ((48 + digits@[digits@.len() - 1 - j]) as u8) as char,
            ),
        decreases k - i,
    {
        let d = digits[k - 1 - i];
        push_char(&mut out, (48 + d) as char);
        i = i + 1;
        assert(out@ =~= head + Seq::new(
            i as nat,
            |j: int| ((48 + digits@[digits@.len() - 1 - j]) as u8) as char,
        ));
    }
    out
}

/// The number that decimal digits spell, with or without a `+` before
/// them, where they spell one that is at most `max`.
pub open spec fn decimal_value(text: Seq<char>, max: nat) -> Option<nat> {
    let digits = if text.len() > 0 && text[0] == '+' {
        text.skip(1)
    } else {
        text
    };
    if digits.len() == 0 {
        None
    } else {
        digits_value(digits, max)
    }
}

/// The number that digits spell, where every character is a digit and
/// the number is at most `max`; no digits spell zero.
pub open spec fn digits_value(digits: Seq<char>, max: nat) -> Option<nat>
    decreases digits.len(),
{
    if digits.len() == 0 {
        Some(0)
    } else {
        let c = digits.last() as u32;
        match digits_value(digits.drop_last(), max) {
            Some(v) => if 48 <= c <= 57 && v * 10 + (c - 48) <= max {
                Some((v * 10 + (c - 48)) as nat)
            } else {
                None
            },
            None => None,
        }
    }
}

/// The number that decimal digits spell, with or without a `+` before
/// them, where it is at most `max`.
pub fn parse_decimal(text: &str, max: u64) -> (r: Option<u64>)
    ensures
        match decimal_value(text@, max as nat) {
            Some(v) => r == Some(v as u64),
            None => r is None,
        },
{
    let n = text.unicode_len();
    let start: usize = if n > 0 && text.get_char(0) == '+' {
        1
    } else {
        0
    };
    let ghost digits = if text@.len() > 0 && text@[0] == '+' {
        text@.skip(1)
    } else {
        text@
    };
    assert(digits =~= text@.skip(start as int));
    if start >= n {
        return None;
    }
    let mut value: u64 = 0;
    let mut i: usize = start;
    assert(digits.take(0) =~= Seq::<char>::empty());
    while i < n
        invariant
            start <= i <= n,
            start < n,
            n == text@.len(),
            digits == text@.skip(start as int),
            digits == if text@.len() > 0 && text@[0] == '+' {
                text@.skip(1)
            } else {
                text@
            },
            digits_value(digits.take(i - start), max as nat) == Some(value as nat),
            value <= max,
        decreases n - i,
    {
        assert(digits.take(i + 1 - start).drop_last() =~= digits.take(i - start));
        assert(digits.take(i + 1 - start).last() == text@[i as int]);
        let c = text.get_char(i) as u32;
        if c < 48 || c > 57 {
            proof {
                lemma_digits_none(digits, i + 1 - start, max as nat);
            }
            return None;
        }
        let d: u64 = (c - 48) as u64;
        if d > max || value > (max - d) / 10 {
            proof {
                assert(value * 10 + d > max) by (nonlinear_arith)
                    requires
                        d > max || value > (max - d) / 10,
                        d < 10,
                ;
                lemma_digits_none(digits, i + 1 - start, max as nat);
            }
            return None;
        }
        assert(value * 10 + d <= max) by (nonlinear_arith)
            requires
                value <= (max - d) / 10,
                d <= max,
        ;
        value = value * 10 + d;
        i = i + 1;
    }
    assert(digits.take(n - start) =~= digits);
    Some(value)
}

proof fn lemma_digits_none(digits: Seq<char>, n: int, max: nat)
    requires
        0 <= n <= digits.len(),
        digits_value(digits.take(n), max) is None,
    ensures
        digits_value(digits, max) is None,
    decreases digits.len() - n,
{
    if n < digits.len() {
        assert(digits.take(n + 1).drop_last() =~= digits.take(n));
        lemma_digits_none(digits, n + 1, max);
    } else {
        assert(digits.take(n) =~= digits);
    }
}

/// A number that decimal digits spell is at most the bound that was
/// given.
pub proof fn lemma_decimal_value_bound(text: Seq<char>, max: nat)
    ensures
        decimal_value(text, max) matches Some(v) ==> v <= max,
{
    let digits = if text.len() > 0 && text[0] == '+' {
        text.skip(1)
    } else {
        text
    };
    lemma_digits_value_bound(digits, max);
}

proof fn lemma_digits_value_bound(digits: Seq<char>, max: nat)
    ensures
        digits_value(digits, max) matches Some(v) ==> v <= max,
    decreases digits.len(),
{
    if digits.len() > 0 {
        lemma_digits_value_bound(digits.drop_last(), max);
    }
}

} // verus!
