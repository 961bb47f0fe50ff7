//! Building and inspecting text: the few string operations the rest of the library
//! needs, each with a statement of what it does.

use vstd::prelude::*;
use vstd::string::*;
use vstd::utf8::*;

verus! {

/// Append one character to a string.
///
/// Trusted: `String::push`, which appends the character to the end of the string.
#[verifier::external_body]
pub(crate) fn push_char(text: &mut String, c: char)
    ensures
        final(text)@ == old(text)@.push(c),
{
    text.push(c);
}

/// A string holding the UTF-8 text in `bytes`, or `None` when they are not UTF-8.
///
/// Trusted: `String::from_utf8`, which accepts exactly the well-formed UTF-8
/// sequences and then holds the characters they encode.
#[verifier::external_body]
pub(crate) fn string_from_utf8(bytes: Vec<u8>) -> (text: Option<String>)
    ensures
        text is Some <==> valid_utf8(bytes@),
        text matches Some(s) ==> s@ == decode_utf8(bytes@),
{
    String::from_utf8(bytes).ok()
}

/// An owned copy of `text`.
pub(crate) fn owned(text: &str) -> (result: String)
    ensures
        result@ == text@,
{
    text.to_owned()
}

/// The concatenation of `left` and `right`.
pub(crate) fn joined(left: &str, right: &str) -> (result: String)
    ensures
        result@ == left@ + right@,
{
    let mut result = left.to_owned();
    result.append(right);
    result
}

/// The characters of `text`.
pub fn chars_of(text: &str) -> (chars: Vec<char>)
    ensures
        chars@ == text@,
{
    broadcast use vstd::string::axiom_spec_iter;
    let mut chars: Vec<char> = Vec::new();
    for c in it: text.chars()
        invariant
            chars@ == it.seq().take(it.index() as int),
            it.seq() == text@,
    {
        chars.push(c);
        assert(chars@ =~= it.seq().take(it.index() + 1));
    }
    assert(chars@ =~= text@);
    chars
}

/// A string holding `chars`.
pub fn string_of(chars: &[char]) -> (text: String)
    ensures
        text@ == chars@,
{
    let mut text = String::new();
    let mut i: usize = 0;
    while i < chars.len()
        invariant
            i <= chars.len(),
            text@ == chars@.take(i as int),
        decreases chars.len() - i,
    {
        push_char(&mut text, chars[i]);
        i = i + 1;
        assert(text@ =~= chars@.take(i as int));
    }
    assert(chars@.take(i as int) =~= chars@);
    text
}

/// Whether `c` has the Unicode `White_Space` property, which is what
/// `char::is_whitespace`, and so `str::trim`, goes by.
pub open spec fn white_space(c: char) -> bool {
    ||| '\t' <= c <= '\r'
    ||| c == ' '
    ||| c == '\u{85}'
    ||| c == '\u{A0}'
    ||| c == '\u{1680}'
    ||| '\u{2000}' <= c <= '\u{200A}'
    ||| c == '\u{2028}'
    ||| c == '\u{2029}'
    ||| c == '\u{202F}'
    ||| c == '\u{205F}'
    ||| c == '\u{3000}'
}

/// Whether `c` has the Unicode `White_Space` property.
pub fn is_white_space(c: char) -> (space: bool)
    ensures
        space == white_space(c),
{
    ('\t' <= c && c <= '\r') || c == ' ' || c == '\u{85}' || c == '\u{A0}' || c == '\u{1680}'
        || ('\u{2000}' <= c && c <= '\u{200A}') || c == '\u{2028}' || c == '\u{2029}' || c
        == '\u{202F}' || c == '\u{205F}' || c == '\u{3000}'
}

/// `text` without its leading white space.
pub open spec fn trim_start(text: Seq<char>) -> Seq<char>
    decreases text.len(),
{
    if text.len() > 0 && white_space(text[0]) {
        trim_start(text.drop_first())
    } else {
        text
    }
}

/// `text` without its trailing white space.
pub open spec fn trim_end(text: Seq<char>) -> Seq<char>
    decreases text.len(),
{
    if text.len() > 0 && white_space(text.last()) {
        trim_end(text.drop_last())
    } else {
        text
    }
}

/// `text` without leading or trailing white space, as `str::trim` gives it.
pub open spec fn trimmed(text: Seq<char>) -> Seq<char> {
    trim_end(trim_start(text))
}

/// The characters from `start` up to `end`.
pub fn slice_chars(chars: &[char], start: usize, end: usize) -> (part: Vec<char>)
    requires
        start <= end <= chars.len(),
    ensures
        part@ == chars@.subrange(start as int, end as int),
{
    let mut part: Vec<char> = Vec::new();
    let mut i: usize = start;
    while i < end
        invariant
            start <= i <= end,
            end <= chars.len(),
            part@ == chars@.subrange(start as int, i as int),
        decreases end - i,
    {
        part.push(chars[i]);
        i = i + 1;
        assert(part@ =~= chars@.subrange(start as int, i as int));
    }
    part
}

/// `chars` without leading or trailing white space.
pub fn trim_chars(chars: &[char]) -> (trimmed_chars: Vec<char>)
    ensures
        trimmed_chars@ == trimmed(chars@),
{
    let mut start: usize = 0;
    proof {
        assert(chars@.skip(0) =~= chars@);
    }
    while start < chars.len() && is_white_space(chars[start])
        invariant
            start <= chars.len(),
            trim_start(chars@) == trim_start(chars@.skip(start as int)),
        decreases chars.len() - start,
    {
        assert(chars@.skip(start as int).drop_first() =~= chars@.skip(start + 1));
        start = start + 1;
    }
    let ghost rest = chars@.skip(start as int);
    assert(trim_start(chars@) == rest);
    let mut end: usize = chars.len();
    proof {
        assert(rest.take(rest.len() as int) =~= rest);
    }
    while end > start && is_white_space(chars[end - 1])
        invariant
            start <= end <= chars.len(),
            rest == chars@.skip(start as int),
            trim_end(rest) == trim_end(rest.take(end - start)),
        decreases end - start,
    {
        assert(rest.take(end - start).drop_last() =~= rest.take(end - 1 - start));
        assert(rest.take(end - start).last() == chars@[end - 1]);
        end = end - 1;
    }
    assert(rest.take(end - start) =~= chars@.subrange(start as int, end as int));
    slice_chars(chars, start, end)
}

/// Whether two runs of characters are the same.
pub fn same_chars(a: &[char], b: &[char]) -> (same: bool)
    ensures
        same == (a@ == b@),
{
    if a.len() != b.len() {
        return false;
    }
    let mut i: usize = 0;
    while i < a.len()
        invariant
            i <= a.len(),
            a.len() == b.len(),
            forall|j: int| 0 <= j < i ==> a@[j] == b@[j],
        decreases a.len() - i,
    {
        if a[i] != b[i] {
            return false;
        }
        i = i + 1;
    }
    assert(a@ =~= b@);
    true
}

/// The ASCII digit for `d`.
pub open spec fn digit_char(d: nat) -> char {
    ((48 + d) as u8) as char
}

/// The decimal spelling of `n`, most significant digit first, with no leading zero.
pub open spec fn decimal(n: nat) -> Seq<char>
    decreases n,
{
    if n < 10 {
        seq![digit_char(n)]
    } else {
        decimal(n / 10).push(digit_char(n % 10))
    }
}

/// `n` in decimal, as `to_string` spells an unsigned integer.
pub fn decimal_string(n: u64) -> (text: String)
    ensures
        text@ == decimal(n as nat),
    decreases n,
{
    let digit = (n % 10) as u8;
    let c = (48u8 + digit) as char;
    if n < 10 {
        let mut text = String::new();
        push_char(&mut text, c);
        proof {
            assert(text@ =~= seq![digit_char(n as nat)]);
        }
        text
    } else {
        let mut text = decimal_string(n / 10);
        push_char(&mut text, c);
        text
    }
}


/// Whether a path's last byte is `/`.
pub open spec fn ends_with_slash(path: Seq<char>) -> bool {
    encode_utf8(path).len() > 0 && encode_utf8(path).last() == 47u8
}

/// `name` under the directory `base`, as `PathBuf::join` puts a relative name
/// under a directory on Unix: with a `/` between them unless `base` is empty or
/// already ends in one.
pub open spec fn joined_path(base: Seq<char>, name: Seq<char>) -> Seq<char> {
    if base.len() == 0 {
        name
    } else if ends_with_slash(base) {
        base + name
    } else {
        base + seq!['/'] + name
    }
}

/// Text has UTF-8 bytes exactly when it has characters.
proof fn lemma_encoding_empty(text: Seq<char>)
    ensures
        (encode_utf8(text).len() == 0) == (text.len() == 0),
{
    if text.len() > 0 {
        assert(encode_scalar(text[0] as u32).len() > 0);
    }
}

/// `name` under the directory `base`.
pub fn join_path(base: &str, name: &str) -> (path: String)
    ensures
        path@ == joined_path(base@, name@),
{
    let mut path = owned(base);
    let bytes = base.as_bytes();
    proof {
        lemma_encoding_empty(base@);
    }
    if bytes.len() > 0 && bytes[bytes.len() - 1] != 47 {
        push_char(&mut path, '/');
    }
    path.append(name);
    proof {
        assert(path@ =~= joined_path(base@, name@));
    }
    path
}

/// The lowercase hexadecimal digit for `d`.
pub open spec fn hex_digit(d: nat) -> char {
    if d < 10 {
        ((48 + d) as u8) as char
    } else {
        ((87 + d) as u8) as char
    }
}

/// `b` as `format!("{b:#04x}")` spells it: `0x` and two lowercase hex digits.
pub open spec fn hex_byte(b: u8) -> Seq<char> {
    seq!['0', 'x', hex_digit((b / 16) as nat), hex_digit((b % 16) as nat)]
}

fn hex_digit_char(d: u8) -> (c: char)
    requires
        d < 16,
    ensures
        c == hex_digit(d as nat),
{
    if d < 10 {
        (48u8 + d) as char
    } else {
        (87u8 + d) as char
    }
}

/// `b` as `0x` and two lowercase hex digits.
pub fn hex_byte_string(b: u8) -> (text: String)
    ensures
        text@ == hex_byte(b),
{
    let mut text = String::new();
    push_char(&mut text, '0');
    push_char(&mut text, 'x');
    push_char(&mut text, hex_digit_char(b / 16));
    push_char(&mut text, hex_digit_char(b % 16));
    proof {
        assert(text@ =~= hex_byte(b));
    }
    text
}

} // verus!

verus! {

/// The text `format!("{:?}", ..)` gives for a string: quoted, with escapes.
pub uninterp spec fn debug_quoted(text: Seq<char>) -> Seq<char>;

/// The `Debug` rendering of `text`.
///
/// Trusted: the standard library's `Debug` implementation for `str`, which depends
/// on the characters alone.
#[verifier::external_body]
pub(crate) fn debug_string(text: &str) -> (rendered: String)
    ensures
        rendered@ == debug_quoted(text@),
{
    format!("{text:?}")
}

} // verus!
