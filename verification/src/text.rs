//! Text as the rest of the library sees it: a string is its sequence of
//! characters, and offsets into it count the bytes of its UTF-8 encoding.

use vstd::prelude::*;
use vstd::string::*;
use vstd::utf8::*;

verus! {

/// The number of bytes that `text` takes in UTF-8.
pub open spec fn byte_len(text: Seq<char>) -> nat {
    encode_utf8(text).len()
}

/// The characters of each string of a list.
pub open spec fn strings_view(list: Seq<String>) -> Seq<Seq<char>> {
    list.map_values(|s: String| s@)
}

/// The part of `text` that lies between the byte offsets `from` and `to`,
/// where both fall between two characters; `None` where they do not, or
/// lie outside the text, or are out of order.
pub open spec fn spec_slice(text: Seq<char>, from: int, to: int) -> Option<Seq<char>> {
    let bytes = encode_utf8(text);
    if 0 <= from <= to <= bytes.len() && is_char_boundary(bytes, from) && is_char_boundary(
        bytes,
        to,
    ) {
        Some(decode_utf8(bytes.subrange(from, to)))
    } else {
        None
    }
}

/// Two texts with the same encoding are the same text.
pub proof fn lemma_encode_injective(a: Seq<char>, b: Seq<char>)
    requires
        encode_utf8(a) == encode_utf8(b),
    ensures
        a == b,
{
    encode_utf8_decode_utf8(a);
    encode_utf8_decode_utf8(b);
}

/// Whether two string slices hold the same text.
pub fn str_eq(a: &str, b: &str) -> (same: bool)
    ensures
        same == (a@ == b@),
{
    let x = a.as_bytes();
    let y = b.as_bytes();
    if x.len() != y.len() {
        return false;
    }
    let mut i: usize = 0;
    while i < x.len()
        invariant
            x@ == encode_utf8(a@),
            y@ == encode_utf8(b@),
            x.len() == y.len(),
            i <= x.len(),
            forall|k: int| 0 <= k < i ==> x@[k] == y@[k],
        decreases x.len() - i,
    {
        if x[i] != y[i] {
            return false;
        }
        i += 1;
    }
    proof {
        assert(x@ =~= y@);
        lemma_encode_injective(a@, b@);
    }
    true
}

/// `String::push`: the string afterwards is the string before with the
/// character `c` at its end.
#[verifier::external_body]
pub(crate) fn push_char(s: &mut String, c: char)
    ensures
        final(s)@ == old(s)@.push(c),
{
    s.push(c)
}

/// `std::str::from_utf8`: the bytes read as text. It is there if and only
/// if the bytes are valid UTF-8, and then it is the text that they encode.
#[verifier::external_body]
pub(crate) fn utf8_text(bytes: &[u8]) -> (text: Option<&str>)
    ensures
        text is Some <==> valid_utf8(bytes@),
        text is Some ==> text->Some_0@ == decode_utf8(bytes@),
{
    std::str::from_utf8(bytes).ok()
}

/// The part of `text` between the byte offsets `from` and `to`.
pub fn slice<'a>(text: &'a str, from: usize, to: usize) -> (part: Option<&'a str>)
    ensures
        match (part, spec_slice(text@, from as int, to as int)) {
            (Some(p), Some(s)) => p@ == s,
            (None, None) => true,
            _ => false,
        },
{
    let len = text.as_bytes().len();
    if from <= to && to <= len && text.is_char_boundary(from) && text.is_char_boundary(to) {
        let ghost bytes = encode_utf8(text@);
        let (head, _) = text.split_at(to);
        proof {
            encode_utf8_valid_utf8(text@);
            lemma_boundary_in_prefix(bytes, from as int, to as int);
            assert(head.spec_bytes() == bytes.subrange(0, to as int));
        }
        let (_, part) = head.split_at(from);
        proof {
            encode_utf8_decode_utf8(part@);
            assert(encode_utf8(part@) == bytes.subrange(from as int, to as int));
        }
        Some(part)
    } else {
        None
    }
}

/// A character boundary of a text is one of each prefix that reaches it and
/// ends at a boundary itself.
pub proof fn lemma_boundary_in_prefix(bytes: Seq<u8>, from: int, to: int)
    requires
        valid_utf8(bytes),
        0 <= from <= to <= bytes.len(),
        is_char_boundary(bytes, from),
        is_char_boundary(bytes, to),
    ensures
        is_char_boundary(bytes.subrange(0, to), from),
{
    valid_utf8_split(bytes, to);
    let prefix = bytes.subrange(0, to);
    if from == to {
        is_char_boundary_start_end_of_seq(prefix);
    } else {
        is_char_boundary_iff_not_is_continuation_byte(bytes, from);
        is_char_boundary_iff_not_is_continuation_byte(prefix, from);
    }
}

/// A part of a text takes as many bytes as lie between its two offsets.
pub proof fn lemma_slice_len(text: Seq<char>, from: int, to: int)
    requires
        spec_slice(text, from, to) is Some,
    ensures
        byte_len(spec_slice(text, from, to)->Some_0) == to - from,
{
    let bytes = encode_utf8(text);
    encode_utf8_valid_utf8(text);
    lemma_boundary_in_prefix(bytes, from, to);
    valid_utf8_split(bytes, to);
    let prefix = bytes.subrange(0, to);
    valid_utf8_split(prefix, from);
    assert(prefix.subrange(from, prefix.len() as int) =~= bytes.subrange(from, to));
    decode_utf8_encode_utf8(bytes.subrange(from, to));
}

} // verus!
