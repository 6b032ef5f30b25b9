//! Characters, UTF-8 offsets and the text of a diff line.
use vstd::prelude::*;
use vstd::utf8::*;

verus! {

broadcast use vstd::string::group_string_axioms;

/// Length of `s` in bytes, as UTF-8.
pub open spec fn byte_len(s: Seq<char>) -> nat {
    encode_utf8(s).len()
}

/// The text that the bytes `start..end` of `s` spell.
pub open spec fn text_between(s: Seq<char>, start: int, end: int) -> Seq<char> {
    decode_utf8(encode_utf8(s).subrange(start, end))
}

/// What [`String::from_utf8_lossy`] makes of `bytes`.
pub uninterp spec fn lossy_text(bytes: Seq<u8>) -> Seq<char>;

/// What [`char::is_alphanumeric`] says of `c`.
pub uninterp spec fn alphanumeric(c: char) -> bool;

/// What [`char::is_whitespace`] says of `c`.
pub uninterp spec fn whitespace(c: char) -> bool;

/// Whether `c` is a letter or a digit. Beyond ASCII that is for Unicode to say.
pub open spec fn letter_or_digit(c: char) -> bool {
    if c <= '\u{7f}' {
        'a' <= c <= 'z' || 'A' <= c <= 'Z' || '0' <= c <= '9'
    } else {
        alphanumeric(c)
    }
}

/// Whether `c` is whitespace. Beyond ASCII that is for Unicode to say, for which no letter and no
/// digit is whitespace.
pub open spec fn blank(c: char) -> bool {
    if c <= '\u{7f}' {
        c == ' ' || '\t' <= c <= '\r'
    } else {
        whitespace(c) && !alphanumeric(c)
    }
}

/// Calls [`char::is_alphanumeric`], whose answer for a character outside ASCII comes from the
/// Unicode tables of `std` and is only given a name. An ASCII character is alphanumeric if and
/// only if it is a letter or a digit.
#[verifier::external_body]
pub(crate) fn is_alphanumeric(c: char) -> (r: bool)
    ensures
        r == alphanumeric(c),
        c <= '\u{7f}' ==> r == ('a' <= c <= 'z' || 'A' <= c <= 'Z' || '0' <= c <= '9'),
{
    c.is_alphanumeric()
}

/// Calls [`char::is_whitespace`], whose answer for a character outside ASCII comes from the
/// Unicode tables of `std` and is only given a name. The ASCII whitespace characters are the
/// space and the five control characters from tab to carriage return. No whitespace character is
/// alphanumeric.
#[verifier::external_body]
pub(crate) fn is_whitespace(c: char) -> (r: bool)
    ensures
        r == whitespace(c),
        r ==> !alphanumeric(c),
        c <= '\u{7f}' ==> r == (c == ' ' || '\t' <= c <= '\r'),
{
    c.is_whitespace()
}

/// The text of some bytes: what they spell if they are UTF-8, and what [`String::from_utf8_lossy`]
/// makes of them if not.
pub open spec fn text_of(bytes: Seq<u8>) -> Seq<char> {
    if valid_utf8(bytes) {
        decode_utf8(bytes)
    } else {
        lossy_text(bytes)
    }
}

/// Calls [`String::from_utf8_lossy`]. Bytes that are UTF-8 are decoded; of others the result is
/// only given a name. Every character of the result stands for at least one byte.
#[verifier::external_body]
pub(crate) fn from_utf8_lossy(bytes: &[u8]) -> (r: String)
    ensures
        r@ == lossy_text(bytes@),
        valid_utf8(bytes@) ==> r@ == decode_utf8(bytes@),
        r@.len() <= bytes@.len(),
{
    String::from_utf8_lossy(bytes).into_owned()
}

/// Calls `Box::<str>::from`, which copies the text.
#[verifier::external_body]
pub(crate) fn boxed(s: &str) -> (r: Box<str>)
    ensures
        r@ == s@,
{
    Box::from(s)
}

/// `clone` of a boxed text copies the text.
pub assume_specification[ <Box<str> as Clone>::clone ](b: &Box<str>) -> (r: Box<str>)
    ensures
        r@ == b@,
;

/// The encoding of a concatenation is the concatenation of the encodings.
pub proof fn lemma_encode_concat(a: Seq<char>, b: Seq<char>)
    ensures
        encode_utf8(a + b) == encode_utf8(a) + encode_utf8(b),
        byte_len(a + b) == byte_len(a) + byte_len(b),
    decreases a.len(),
{
    if a.len() == 0 {
        assert(a + b =~= b);
        assert(encode_utf8(a) + encode_utf8(b) =~= encode_utf8(b));
    } else {
        lemma_encode_concat(a.drop_first(), b);
        assert((a + b).drop_first() =~= a.drop_first() + b);
        assert(encode_utf8(a + b) =~= encode_utf8(a) + encode_utf8(b));
    }
}

/// The end of a prefix is a character boundary.
pub proof fn lemma_boundary(a: Seq<char>, b: Seq<char>)
    ensures
        is_char_boundary(encode_utf8(a + b), byte_len(a) as int),
    decreases a.len(),
{
    if a.len() == 0 {
        assert(a + b =~= b);
        encode_utf8_valid_utf8(b);
        is_char_boundary_start_end_of_seq(encode_utf8(b));
    } else {
        let whole = a + b;
        lemma_boundary(a.drop_first(), b);
        assert(whole.drop_first() =~= a.drop_first() + b);
        encode_utf8_first_scalar(whole);
        assert(pop_first_scalar(encode_utf8(whole)) =~= encode_utf8(whole.drop_first()));
        encode_utf8_valid_utf8(whole);
    }
}

/// Cutting a text at the end of a prefix gives the prefix and the rest.
pub proof fn lemma_cut(a: Seq<char>, b: Seq<char>)
    ensures
        encode_utf8(a + b).subrange(0, byte_len(a) as int) == encode_utf8(a),
        encode_utf8(a + b).subrange(byte_len(a) as int, byte_len(a + b) as int) == encode_utf8(b),
{
    lemma_encode_concat(a, b);
    assert(encode_utf8(a + b).subrange(0, byte_len(a) as int) =~= encode_utf8(a));
    assert(encode_utf8(a + b).subrange(byte_len(a) as int, byte_len(a + b) as int) =~= encode_utf8(
        b,
    ));
}

/// A text has at least as many bytes as characters.
pub proof fn lemma_chars_le_bytes(s: Seq<char>)
    ensures
        s.len() <= byte_len(s),
    decreases s.len(),
{
    if s.len() > 0 {
        lemma_chars_le_bytes(s.drop_first());
    }
}

/// Encodings that are equal are of equal texts.
pub proof fn lemma_encode_injective(a: Seq<char>, b: Seq<char>)
    requires
        encode_utf8(a) == encode_utf8(b),
    ensures
        a == b,
{
    encode_utf8_decode_utf8(a);
    encode_utf8_decode_utf8(b);
}

/// The number of bytes of `c` in UTF-8.
pub(crate) fn utf8_width(c: char) -> (r: usize)
    ensures
        r == byte_len(seq![c]),
        1 <= r <= 4,
{
    proof {
        lemma_one_char(c);
        char_is_scalar(c);
    }
    let v: u32 = c as u32;
    if v < 0x80 {
        1
    } else if v < 0x800 {
        2
    } else if v < 0x10000 {
        3
    } else {
        4
    }
}

/// The length of `s` in bytes.
pub(crate) fn str_bytes(s: &str) -> (r: usize)
    ensures
        r == byte_len(s@),
        s@.len() <= r,
{
    proof {
        lemma_chars_le_bytes(s@);
    }
    s.as_bytes().len()
}

/// Splits `s` after its first `mid` bytes, which spell the first `chars` characters.
pub(crate) fn split_text<'a>(s: &'a str, mid: usize, chars: Ghost<int>) -> (r: (&'a str, &'a str))
    requires
        0 <= chars@ <= s@.len(),
        mid == byte_len(s@.take(chars@)),
    ensures
        r.0@ == s@.take(chars@),
        r.1@ == s@.skip(chars@),
{
    let ghost a = s@.take(chars@);
    let ghost b = s@.skip(chars@);
    proof {
        assert(a + b =~= s@);
        lemma_boundary(a, b);
        lemma_cut(a, b);
    }
    let r = s.split_at(mid);
    proof {
        lemma_encode_injective(r.0@, a);
        lemma_encode_injective(r.1@, b);
    }
    r
}

/// The part of `s` at the bytes `start..end`.
pub(crate) fn slice_text<'a>(s: &'a str, start: usize, end: usize) -> (r: &'a str)
    requires
        start <= end,
        is_char_boundary(encode_utf8(s@), start as int),
        is_char_boundary(encode_utf8(s@), end as int),
    ensures
        r@ == text_between(s@, start as int, end as int),
{
    let ghost bytes = encode_utf8(s@);
    let ghost head = bytes.subrange(0, end as int);
    proof {
        encode_utf8_valid_utf8(s@);
        lemma_boundary_in_prefix(bytes, start as int, end as int);
    }
    let r = s.split_at(end).0.split_at(start).1;
    proof {
        assert(head.subrange(start as int, end as int) =~= bytes.subrange(
            start as int,
            end as int,
        ));
        encode_utf8_decode_utf8(r@);
    }
    r
}

/// A character boundary of a text is one of every prefix that holds it.
pub proof fn lemma_boundary_in_prefix(bytes: Seq<u8>, start: int, end: int)
    requires
        valid_utf8(bytes),
        is_char_boundary(bytes, start),
        is_char_boundary(bytes, end),
        start <= end,
    ensures
        end <= bytes.len(),
        is_char_boundary(bytes.subrange(0, end), start),
        bytes.subrange(0, end).len() == end,
{
    let head = bytes.subrange(0, end);
    valid_utf8_split(bytes, end);
    if start == end {
        is_char_boundary_start_end_of_seq(head);
    } else {
        is_char_boundary_iff_not_is_continuation_byte(bytes, start);
        is_char_boundary_iff_not_is_continuation_byte(head, start);
        assert(head[start] == bytes[start]);
    }
}

/// Whether `c` is a newline character.
pub open spec fn newline(c: char) -> bool {
    c == '\n' || c == '\r'
}

/// `s` without the newline characters that it starts with.
pub open spec fn trim_start(s: Seq<char>) -> Seq<char>
    decreases s.len(),
{
    if s.len() > 0 && newline(s[0]) {
        trim_start(s.skip(1))
    } else {
        s
    }
}

/// `s` without the newline characters that it ends with.
pub open spec fn trim_end(s: Seq<char>) -> Seq<char>
    decreases s.len(),
{
    if s.len() > 0 && newline(s.last()) {
        trim_end(s.drop_last())
    } else {
        s
    }
}

/// `s` without the newline characters at both ends.
pub open spec fn trimmed(s: Seq<char>) -> Seq<char> {
    trim_end(trim_start(s))
}

/// Whether `c` is a newline character: line feed or carriage return.
pub fn is_newline(c: char) -> (r: bool)
    ensures
        r == newline(c),
        r <==> c == '\n' || c == '\r',
{
    c == '\n' || c == '\r'
}

/// The first byte of a text is that of an ASCII character exactly if the first character is that
/// character, and likewise at the end.
proof fn lemma_ascii_ends(s: Seq<char>)
    requires
        s.len() > 0,
    ensures
        byte_len(s) > 0,
        encode_utf8(s)[0] < 0x80 <==> s[0] <= '\u{7f}',
        s[0] <= '\u{7f}' ==> encode_utf8(s)[0] == s[0] as u32 && byte_len(s.take(1)) == 1,
        encode_utf8(s).last() < 0x80 <==> s.last() <= '\u{7f}',
        s.last() <= '\u{7f}' ==> encode_utf8(s).last() == s.last() as u32 && byte_len(
            s.drop_last(),
        ) == byte_len(s) - 1,
{
    let first = s[0] as u32;
    let last = s.last() as u32;
    lemma_char_value(s[0]);
    lemma_char_value(s.last());
    lemma_one_char(s[0]);
    lemma_one_char(s.last());
    assert(s =~= s.take(1) + s.skip(1));
    assert(s.take(1) =~= seq![s[0]]);
    lemma_encode_concat(s.take(1), s.skip(1));
    assert(s =~= s.drop_last() + seq![s.last()]);
    lemma_encode_concat(s.drop_last(), seq![s.last()]);
    assert(encode_utf8(s)[0] == encode_scalar(first)[0]);
    assert(encode_utf8(s).last() == encode_scalar(last).last());
    lemma_scalar_bytes(first);
    lemma_scalar_bytes(last);
}

/// A character is its scalar value.
proof fn lemma_char_value(c: char)
    ensures
        is_scalar(c as u32),
        c as u32 == c as int,
        c <= '\u{7f}' <==> (c as u32) < 0x80,
{
}

/// The encoding of one character.
proof fn lemma_one_char(c: char)
    ensures
        encode_utf8(seq![c]) == encode_scalar(c as u32),
{
    reveal_with_fuel(encode_utf8, 2);
    assert(seq![c].drop_first() =~= Seq::<char>::empty());
    assert(encode_utf8(seq![c]) =~= encode_scalar(c as u32));
}

/// Only the encoding of an ASCII character holds a byte below `0x80` at either end.
proof fn lemma_scalar_bytes(v: u32)
    requires
        is_scalar(v),
    ensures
        v < 0x80 ==> encode_scalar(v).len() == 1 && encode_scalar(v)[0] == v,
        v >= 0x80 ==> encode_scalar(v)[0] >= 0x80 && encode_scalar(v).last() >= 0x80,
{
    assert(v < 0x80 ==> (v & 0x7F) as u8 == v) by (bit_vector);
    assert((0xC0u8 | ((v >> 6) & 0x1F) as u8) >= 0x80) by (bit_vector);
    assert((0xE0u8 | ((v >> 12) & 0x0F) as u8) >= 0x80) by (bit_vector);
    assert((0xF0u8 | ((v >> 18) & 0x7) as u8) >= 0x80) by (bit_vector);
    assert((0x80u8 | (v & 0x3F) as u8) >= 0x80) by (bit_vector);
}

/// Takes the newline characters off both ends of `s`.
pub(crate) fn trim_newlines<'a>(s: &'a str) -> (r: &'a str)
    ensures
        r@ == trimmed(s@),
        r@.len() <= s@.len(),
{
    let mut t: &'a str = s;
    loop
        invariant
            trim_start(t@) == trim_start(s@),
            t@.len() <= s@.len(),
        ensures
            t@ == trim_start(s@),
            t@.len() <= s@.len(),
        decreases t@.len(),
    {
        let n: usize = str_bytes(t);
        if n == 0 {
            break;
        }
        proof {
            lemma_text_nonempty(t@);
            lemma_ascii_ends(t@);
        }
        let b: u8 = t.as_bytes()[0];
        proof {
            lemma_byte_char(t@[0], b);
        }
        if is_newline(b as char) {
            t = split_text(t, 1, Ghost(1)).1;
        } else {
            break;
        }
    }
    loop
        invariant
            trim_end(t@) == trimmed(s@),
            t@.len() <= s@.len(),
        ensures
            t@ == trimmed(s@),
            t@.len() <= s@.len(),
        decreases t@.len(),
    {
        let n: usize = str_bytes(t);
        if n == 0 {
            break;
        }
        proof {
            lemma_text_nonempty(t@);
            lemma_ascii_ends(t@);
            assert(t@.take(t@.len() - 1) =~= t@.drop_last());
        }
        let b: u8 = t.as_bytes()[n - 1];
        proof {
            lemma_byte_char(t@.last(), b);
        }
        if is_newline(b as char) {
            t = split_text(t, n - 1, Ghost(t@.len() - 1)).0;
        } else {
            break;
        }
    }
    t
}

/// A byte at the end of a text is a newline character exactly if the character there is.
proof fn lemma_byte_char(c: char, b: u8)
    requires
        b < 0x80 <==> c <= '\u{7f}',
        c <= '\u{7f}' ==> b == c as u32,
    ensures
        newline(b as char) == newline(c),
        newline(c) ==> c <= '\u{7f}',
{
}

/// A text with a byte has a character.
proof fn lemma_text_nonempty(s: Seq<char>)
    requires
        byte_len(s) > 0,
    ensures
        s.len() > 0,
{
}

/// A trimmed text neither starts nor ends with a newline character, and is what stands between
/// newline characters in the text that was trimmed.
pub proof fn law_trimmed(s: Seq<char>)
    ensures
        exists|i: int, j: int|
            #![trigger s.subrange(i, j)]
            0 <= i <= j <= s.len() && trimmed(s) == s.subrange(i, j) && (forall|k: int|
                #![trigger s[k]]
                (0 <= k < i || j <= k < s.len()) ==> s[k] == '\n' || s[k] == '\r'),
        trimmed(s).len() > 0 ==> trimmed(s)[0] != '\n' && trimmed(s)[0] != '\r'
            && trimmed(s).last() != '\n' && trimmed(s).last() != '\r',
{
    let i = lemma_trim_start(s);
    let t = trim_start(s);
    let j = lemma_trim_end(t);
    assert(trimmed(s) =~= s.subrange(i, i + j));
    assert forall|k: int|
        #![trigger s[k]]
        (0 <= k < i || i + j <= k < s.len()) implies newline(s[k]) by {
        if k >= i {
            assert(t[k - i] == s[k]);
        }
    }
}

proof fn lemma_trim_start(s: Seq<char>) -> (i: int)
    ensures
        0 <= i <= s.len(),
        trim_start(s) == s.skip(i),
        forall|k: int| 0 <= k < i ==> newline(#[trigger] s[k]),
        i < s.len() ==> !newline(s[i]),
    decreases s.len(),
{
    if s.len() > 0 && newline(s[0]) {
        let i = lemma_trim_start(s.skip(1));
        assert(s.skip(1).skip(i) =~= s.skip(i + 1));
        assert forall|k: int| 0 <= k < i + 1 implies newline(#[trigger] s[k]) by {
            if k > 0 {
                assert(s.skip(1)[k - 1] == s[k]);
            }
        }
        i + 1
    } else {
        assert(s.skip(0) =~= s);
        0
    }
}

proof fn lemma_trim_end(s: Seq<char>) -> (j: int)
    ensures
        0 <= j <= s.len(),
        trim_end(s) == s.take(j),
        forall|k: int| j <= k < s.len() ==> newline(#[trigger] s[k]),
        0 < j ==> !newline(s[j - 1]),
    decreases s.len(),
{
    if s.len() > 0 && newline(s.last()) {
        let j = lemma_trim_end(s.drop_last());
        assert(s.drop_last().take(j) =~= s.take(j));
        assert forall|k: int| j <= k < s.len() implies newline(#[trigger] s[k]) by {
            if k < s.len() - 1 {
                assert(s.drop_last()[k] == s[k]);
            }
        }
        j
    } else {
        assert(s.take(s.len() as int) =~= s);
        s.len() as int
    }
}

/// A character is a letter or a digit, or whitespace, if it is one of ASCII or if Unicode has it so;
/// what is both for Unicode is a letter or a digit.
pub proof fn law_char_kinds(c: char)
    ensures
        c <= '\u{7f}' ==> (letter_or_digit(c) <==> 'a' <= c <= 'z' || 'A' <= c <= 'Z' || '0' <= c
            <= '9'),
        c > '\u{7f}' ==> (letter_or_digit(c) <==> alphanumeric(c)),
        c <= '\u{7f}' ==> (blank(c) <==> c == ' ' || c == '\t' || c == '\n' || c == '\u{b}' || c
            == '\u{c}' || c == '\r'),
        c > '\u{7f}' ==> (blank(c) <==> whitespace(c) && !alphanumeric(c)),
        !(letter_or_digit(c) && blank(c)),
{
}

/// Bytes that spell a text are the encoding of what is shown of them, and of others is shown what
/// the lossy decoding makes of them.
pub proof fn law_text_of(bytes: Seq<u8>)
    ensures
        valid_utf8(bytes) ==> encode_utf8(text_of(bytes)) == bytes,
        !valid_utf8(bytes) ==> text_of(bytes) == lossy_text(bytes),
{
    if valid_utf8(bytes) {
        decode_utf8_encode_utf8(bytes);
    }
}

} // verus!
