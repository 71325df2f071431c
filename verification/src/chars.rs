//! Character classes and small string helpers shared by the HTML and CSS
//! tokenizers.

use vstd::prelude::*;

verus! {

/// The Unicode white-space characters, as a predicate on code points.
pub open spec fn is_space(c: char) -> bool {
    (0x09 <= c as u32 && c as u32 <= 0x0d) || c as u32 == 0x20 || c as u32 == 0x85 || c as u32
        == 0x1680 || (0x2000 <= c as u32 && c as u32 <= 0x200a) || c as u32 == 0x2028 || c as u32
        == 0x2029 || c as u32 == 0x202f || c as u32 == 0x205f || c as u32 == 0x3000
}

/// Executable form of `is_space`.
pub fn space(c: char) -> (r: bool)
    ensures
        r == is_space(c),
{
    let u = c as u32;
    (0x09 <= u && u <= 0x0d) || u == 0x20 || u == 0x85 || u == 0x1680 || (0x2000 <= u && u
        <= 0x200a) || u == 0x2028 || u == 0x2029 || u == 0x202f || u == 0x205f || u == 0x3000
}

/// ASCII letters and digits: the characters allowed in an HTML tag or
/// attribute name.
pub open spec fn is_tag_char(c: char) -> bool {
    ('a' as u32 <= c as u32 && c as u32 <= 'z' as u32) || ('A' as u32 <= c as u32 && c as u32
        <= 'Z' as u32) || ('0' as u32 <= c as u32 && c as u32 <= '9' as u32)
}

/// Executable form of `is_tag_char`.
pub fn tag_char(c: char) -> (r: bool)
    ensures
        r == is_tag_char(c),
{
    let u = c as u32;
    (97 <= u && u <= 122) || (65 <= u && u <= 90) || (48 <= u && u <= 57)
}

/// ASCII letters, digits and `-`: the characters of a CSS identifier.
pub open spec fn is_name_char(c: char) -> bool {
    is_tag_char(c) || c == '-'
}

/// Executable form of `is_name_char`.
pub fn name_char(c: char) -> (r: bool)
    ensures
        r == is_name_char(c),
{
    tag_char(c) || c == '-'
}

/// ASCII decimal digits.
pub open spec fn is_digit(c: char) -> bool {
    '0' as u32 <= c as u32 && c as u32 <= '9' as u32
}

/// Executable form of `is_digit`.
pub fn digit(c: char) -> (r: bool)
    ensures
        r == is_digit(c),
{
    let u = c as u32;
    48 <= u && u <= 57
}

/// The numeric value of a decimal digit.
pub open spec fn digit_value(c: char) -> int {
    c as u32 - '0' as u32
}

/// ASCII hexadecimal digits.
pub open spec fn is_hex_digit(c: char) -> bool {
    is_digit(c) || ('a' as u32 <= c as u32 && c as u32 <= 'f' as u32) || ('A' as u32 <= c as u32
        && c as u32 <= 'F' as u32)
}

/// The numeric value of a hexadecimal digit.
pub open spec fn hex_value(c: char) -> int {
    if is_digit(c) {
        c as u32 - '0' as u32
    } else if 'a' as u32 <= c as u32 && c as u32 <= 'f' as u32 {
        c as u32 - 'a' as u32 + 10
    } else {
        c as u32 - 'A' as u32 + 10
    }
}

/// The numeric value of a hexadecimal digit, or `None` for any other
/// character.
pub fn hex_digit_value(c: char) -> (r: Option<u8>)
    ensures
        match r {
            Some(v) => is_hex_digit(c) && v == hex_value(c) && v < 16,
            None => !is_hex_digit(c),
        },
{
    let u = c as u32;
    if 48 <= u && u <= 57 {
        Some((u - 48) as u8)
    } else if 97 <= u && u <= 102 {
        Some((u - 97 + 10) as u8)
    } else if 65 <= u && u <= 70 {
        Some((u - 65 + 10) as u8)
    } else {
        None
    }
}

/// Character-for-character equality of two string slices.
pub fn str_eq(a: &str, b: &str) -> (r: bool)
    ensures
        r == (a@ == b@),
{
    let n = a.unicode_len();
    if n != b.unicode_len() {
        proof {
            assert(a@.len() != b@.len());
        }
        return false;
    }
    for i in 0..n
        invariant
            n == a@.len(),
            n == b@.len(),
            forall|j: int| 0 <= j < i ==> a@[j] == b@[j],
    {
        if a.get_char(i) != b.get_char(i) {
            return false;
        }
    }
    proof {
        assert(a@ =~= b@);
    }
    true
}

/// Where a run of white space ends.
pub open spec fn ws_end(src: Seq<char>, pos: int) -> int
    decreases src.len() - pos,
{
    if pos >= src.len() {
        pos
    } else if is_space(src[pos]) {
        ws_end(src, pos + 1)
    } else {
        pos
    }
}

/// What `ws_end` returns: the end of the maximal run of white space.
pub proof fn lemma_ws_end(src: Seq<char>, pos: int)
    requires
        0 <= pos <= src.len(),
    ensures
        pos <= ws_end(src, pos) <= src.len(),
        forall|j: int| pos <= j < ws_end(src, pos) ==> is_space(src[j]),
        ws_end(src, pos) == src.len() || !is_space(src[ws_end(src, pos)]),
    decreases src.len() - pos,
{
    if pos < src.len() && is_space(src[pos]) {
        lemma_ws_end(src, pos + 1);
    }
}

/// `ws_end` is pinned by the facts an executable scan gathers.
pub proof fn lemma_ws_end_is(src: Seq<char>, pos: int, end: int)
    requires
        0 <= pos <= end <= src.len(),
        forall|j: int| pos <= j < end ==> is_space(src[j]),
        end == src.len() || !is_space(src[end]),
    ensures
        ws_end(src, pos) == end,
    decreases end - pos,
{
    if pos < end {
        lemma_ws_end_is(src, pos + 1, end);
    }
}

/// Where a run of tag-name characters ends.
pub open spec fn tag_end(src: Seq<char>, pos: int) -> int
    decreases src.len() - pos,
{
    if pos >= src.len() {
        pos
    } else if is_tag_char(src[pos]) {
        tag_end(src, pos + 1)
    } else {
        pos
    }
}

/// What `tag_end` returns.
pub proof fn lemma_tag_end(src: Seq<char>, pos: int)
    requires
        0 <= pos <= src.len(),
    ensures
        pos <= tag_end(src, pos) <= src.len(),
        forall|j: int| pos <= j < tag_end(src, pos) ==> is_tag_char(src[j]),
        tag_end(src, pos) == src.len() || !is_tag_char(src[tag_end(src, pos)]),
    decreases src.len() - pos,
{
    if pos < src.len() && is_tag_char(src[pos]) {
        lemma_tag_end(src, pos + 1);
    }
}

/// `tag_end` is pinned by the facts an executable scan gathers.
pub proof fn lemma_tag_end_is(src: Seq<char>, pos: int, end: int)
    requires
        0 <= pos <= end <= src.len(),
        forall|j: int| pos <= j < end ==> is_tag_char(src[j]),
        end == src.len() || !is_tag_char(src[end]),
    ensures
        tag_end(src, pos) == end,
    decreases end - pos,
{
    if pos < end {
        lemma_tag_end_is(src, pos + 1, end);
    }
}

/// Where a run of CSS identifier characters ends.
pub open spec fn name_end(src: Seq<char>, pos: int) -> int
    decreases src.len() - pos,
{
    if pos >= src.len() {
        pos
    } else if is_name_char(src[pos]) {
        name_end(src, pos + 1)
    } else {
        pos
    }
}

/// What `name_end` returns.
pub proof fn lemma_name_end(src: Seq<char>, pos: int)
    requires
        0 <= pos <= src.len(),
    ensures
        pos <= name_end(src, pos) <= src.len(),
        forall|j: int| pos <= j < name_end(src, pos) ==> is_name_char(src[j]),
        name_end(src, pos) == src.len() || !is_name_char(src[name_end(src, pos)]),
    decreases src.len() - pos,
{
    if pos < src.len() && is_name_char(src[pos]) {
        lemma_name_end(src, pos + 1);
    }
}

/// `name_end` is pinned by the facts an executable scan gathers.
pub proof fn lemma_name_end_is(src: Seq<char>, pos: int, end: int)
    requires
        0 <= pos <= end <= src.len(),
        forall|j: int| pos <= j < end ==> is_name_char(src[j]),
        end == src.len() || !is_name_char(src[end]),
    ensures
        name_end(src, pos) == end,
    decreases end - pos,
{
    if pos < end {
        lemma_name_end_is(src, pos + 1, end);
    }
}

/// Where a run of number characters (digits and dots) ends.
pub open spec fn number_end(src: Seq<char>, pos: int) -> int
    decreases src.len() - pos,
{
    if pos >= src.len() {
        pos
    } else if is_digit(src[pos]) || src[pos] == '.' {
        number_end(src, pos + 1)
    } else {
        pos
    }
}

/// What `number_end` returns.
pub proof fn lemma_number_end(src: Seq<char>, pos: int)
    requires
        0 <= pos <= src.len(),
    ensures
        pos <= number_end(src, pos) <= src.len(),
        forall|j: int|
            pos <= j < number_end(src, pos) ==> is_digit(src[j]) || src[j] == '.',
        number_end(src, pos) == src.len() || !(is_digit(src[number_end(src, pos)]) || src[number_end(
            src,
            pos,
        )] == '.'),
    decreases src.len() - pos,
{
    if pos < src.len() && (is_digit(src[pos]) || src[pos] == '.') {
        lemma_number_end(src, pos + 1);
    }
}

/// `number_end` is pinned by the facts an executable scan gathers.
pub proof fn lemma_number_end_is(src: Seq<char>, pos: int, end: int)
    requires
        0 <= pos <= end <= src.len(),
        forall|j: int| pos <= j < end ==> is_digit(src[j]) || src[j] == '.',
        end == src.len() || !(is_digit(src[end]) || src[end] == '.'),
    ensures
        number_end(src, pos) == end,
    decreases end - pos,
{
    if pos < end {
        lemma_number_end_is(src, pos + 1, end);
    }
}

/// Where the next occurrence of `stop` is (or the end of the text).
pub open spec fn until_end(src: Seq<char>, pos: int, stop: char) -> int
    decreases src.len() - pos,
{
    if pos >= src.len() {
        pos
    } else if src[pos] != stop {
        until_end(src, pos + 1, stop)
    } else {
        pos
    }
}

/// What `until_end` returns.
pub proof fn lemma_until_end(src: Seq<char>, pos: int, stop: char)
    requires
        0 <= pos <= src.len(),
    ensures
        pos <= until_end(src, pos, stop) <= src.len(),
        forall|j: int| pos <= j < until_end(src, pos, stop) ==> src[j] != stop,
        until_end(src, pos, stop) == src.len() || src[until_end(src, pos, stop)] == stop,
    decreases src.len() - pos,
{
    if pos < src.len() && src[pos] != stop {
        lemma_until_end(src, pos + 1, stop);
    }
}

/// `until_end` is pinned by the facts an executable scan gathers.
pub proof fn lemma_until_end_is(src: Seq<char>, pos: int, stop: char, end: int)
    requires
        0 <= pos <= end <= src.len(),
        forall|j: int| pos <= j < end ==> src[j] != stop,
        end == src.len() || src[end] == stop,
    ensures
        until_end(src, pos, stop) == end,
    decreases end - pos,
{
    if pos < end {
        lemma_until_end_is(src, pos + 1, stop, end);
    }
}

/// Relies on `String::push`: appends one character at the end of the string.
#[verifier::external_body]
pub fn push_char(s: &mut String, c: char)
    ensures
        final(s)@ == old(s)@.push(c),
{
    s.push(c);
}

} // verus!
