//! UTF-8 encoding of the code points that `\u{...}` escapes denote.
use vstd::prelude::*;
use vstd::utf8::*;

verus! {

/// Appends the UTF-8 encoding of the Unicode scalar value `c` to `buf`.
pub fn push_utf8(buf: &mut Vec<u8>, c: u32)
    requires
        is_scalar(c),
    ensures
        final(buf)@ == old(buf)@ + encode_scalar(c),
{
    if c <= 0x7f {
        buf.push((c & 0x7f) as u8);
    } else if c <= 0x7ff {
        buf.push(0xc0 | ((c >> 6) & 0x1f) as u8);
        buf.push(0x80 | (c & 0x3f) as u8);
    } else if c <= 0xffff {
        buf.push(0xe0 | ((c >> 12) & 0x0f) as u8);
        buf.push(0x80 | ((c >> 6) & 0x3f) as u8);
        buf.push(0x80 | (c & 0x3f) as u8);
    } else {
        buf.push(0xf0 | ((c >> 18) & 0x07) as u8);
        buf.push(0x80 | ((c >> 12) & 0x3f) as u8);
        buf.push(0x80 | ((c >> 6) & 0x3f) as u8);
        buf.push(0x80 | (c & 0x3f) as u8);
    }
    assert(final(buf)@ =~= old(buf)@ + encode_scalar(c));
}

/// Decoding, as UTF-8, the bytes that a `\u{...}` escape of a Unicode scalar value appends gives
/// back that value, and takes all of those bytes.
pub proof fn lemma_escape_round_trip(c: u32)
    requires
        is_scalar(c),
    ensures
        valid_first_scalar(encode_scalar(c)),
        decode_first_scalar(encode_scalar(c)) == c,
        length_of_first_scalar(encode_scalar(c)) == encode_scalar(c).len(),
{
    let ch = c as char;
    assert((ch as u32) == c);
    encode_utf8_first_scalar(seq![ch]);
    assert(encode_utf8(seq![ch]) =~= encode_scalar(c)) by {
        assert(seq![ch].drop_first() =~= Seq::<char>::empty());
        assert(encode_utf8(Seq::<char>::empty()) =~= Seq::<u8>::empty());
        assert(encode_utf8(seq![ch]) == encode_scalar(ch as u32) + encode_utf8(seq![ch].drop_first()));
    }
}

} // verus!
