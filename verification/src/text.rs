//! Bytes as text: each byte the character with that code.

use vstd::prelude::*;

verus! {

/// The characters whose codes are the bytes.
pub open spec fn chars_of(bytes: Seq<u8>) -> Seq<char> {
    Seq::new(bytes.len(), |i: int| bytes[i] as char)
}

/// Whether the character with this code is white space: a tab, a line
/// feed, a vertical tab, a form feed, a carriage return, a space, a next
/// line or a no-break space.
pub open spec fn is_space(byte: u8) -> bool {
    (9 <= byte <= 13) || byte == 0x20 || byte == 0x85 || byte == 0xA0
}

/// `bytes` without the white space at its start.
pub open spec fn trim_front(bytes: Seq<u8>) -> Seq<u8>
    decreases bytes.len(),
{
    if bytes.len() > 0 && is_space(bytes[0]) {
        trim_front(bytes.skip(1))
    } else {
        bytes
    }
}

/// `bytes` without the white space at its end.
pub open spec fn trim_back(bytes: Seq<u8>) -> Seq<u8>
    decreases bytes.len(),
{
    if bytes.len() > 0 && is_space(bytes.last()) {
        trim_back(bytes.drop_last())
    } else {
        bytes
    }
}

/// `bytes` without the white space at its start and at its end.
pub open spec fn trimmed(bytes: Seq<u8>) -> Seq<u8> {
    trim_back(trim_front(bytes))
}

/// Calls `String::push`. std documents that it appends the character to
/// the end of the string.
#[verifier::external_body]
fn push_char(s: &mut String, c: char)
    ensures
        final(s)@ == old(s)@.push(c),
{
    s.push(c)
}

/// Whether the character with this code is white space.
pub fn space(byte: u8) -> (r: bool)
    ensures
        r == is_space(byte),
{
    (9 <= byte && byte <= 13) || byte == 0x20 || byte == 0x85 || byte == 0xA0
}

/// The string whose characters have the bytes as their codes.
pub fn string_of(bytes: &[u8]) -> (r: String)
    ensures
        r@ == chars_of(bytes@),
{
    let mut r = String::new();
    let mut i: usize = 0;
    while i < bytes.len()
        invariant
            i <= bytes@.len(),
            r@ == chars_of(bytes@.take(i as int)),
        decreases bytes@.len() - i,
    {
        push_char(&mut r, bytes[i] as char);
        i += 1;
        assert(r@ =~= chars_of(bytes@.take(i as int)));
    }
    assert(bytes@.take(i as int) =~= bytes@);
    r
}

/// `bytes` without the white space at its start and at its end.
pub fn trim(bytes: &[u8]) -> (r: &[u8])
    ensures
        r@ == trimmed(bytes@),
{
    let n = bytes.len();
    let mut from: usize = 0;
    assert(bytes@.skip(0) =~= bytes@);
    while from < n && space(bytes[from])
        invariant
            from <= n == bytes@.len(),
            trim_front(bytes@) == trim_front(bytes@.skip(from as int)),
        decreases n - from,
    {
        assert(bytes@.skip(from as int).skip(1) =~= bytes@.skip(from + 1));
        from += 1;
    }
    let mut to: usize = n;
    assert(bytes@.subrange(from as int, n as int) =~= bytes@.skip(from as int));
    while to > from && space(bytes[to - 1])
        invariant
            from <= to <= n == bytes@.len(),
            trimmed(bytes@) == trim_back(bytes@.subrange(from as int, to as int)),
        decreases to,
    {
        assert(bytes@.subrange(from as int, to as int).drop_last() =~= bytes@.subrange(
            from as int,
            to - 1,
        ));
        to -= 1;
    }
    vstd::slice::slice_subrange(bytes, from, to)
}

} // verus!
